use ai_os::board::Board;
use ai_os::gpio::{led_off, led_on};
use ai_os::ipc::{getc, read_char_blocking, wait_for_linux_ready, KeyOp, WaitOp};
use ai_os::kernel::{kernel_main, panic_round, BootOp};
use ai_os::session::{Next, RegOp};

/// Drives the boot. `loads` says how many bytes each of the three files has.
fn boot(board: Board, display: u64, card: u64, volume: u64, loads: [u64; 3]) -> (Vec<BootOp>, String) {
    let mut m = kernel_main(board);
    let mut ops: Vec<BootOp> = Vec::new();
    let mut text: Vec<u8> = Vec::new();
    let mut files = 0;
    while let Next::Op(op) = m.next() {
        let r = match &op {
            BootOp::InitDisplay => display,
            BootOp::CurrentEl => 0b1000,
            BootOp::InitCard => card,
            BootOp::Mount => volume,
            BootOp::Load(_, _) => {
                files += 1;
                loads[files - 1]
            }
            BootOp::Print(t) => {
                text.extend_from_slice(t);
                99
            }
            _ => 99,
        };
        m.answer(r);
        ops.push(op);
    }
    (ops, String::from_utf8(text).unwrap())
}

#[test]
fn a_complete_card_starts_linux() {
    let (ops, text) = boot(Board::Rpi4, 1, 1, 1, [5_000_000, 3000, 777]);
    let ops: Vec<&BootOp> = ops.iter().filter(|op| !matches!(op, BootOp::Print(_))).collect();
    assert_eq!(
        ops,
        vec![
            &BootOp::InitLed,
            &BootOp::Blink(3, 200, 200),
            &BootOp::InitUart,
            &BootOp::InitDisplay,
            &BootOp::InitFaultConsole,
            &BootOp::Blink(5, 100, 100),
            &BootOp::CurrentEl,
            &BootOp::InitCard,
            &BootOp::Mount,
            &BootOp::ListFiles,
            &BootOp::Load(*b"VMLINUZ RPI", 0x0040_0000),
            &BootOp::Load(*b"INITRD  GZ ", 0x0200_0000),
            &BootOp::Load(*b"BCM2711 DTB", 0x3B50_0000),
            &BootOp::SetupDtb(3000),
            &BootOp::SetupTables,
            &BootOp::ProtectFramebuffer,
            &BootOp::Launch(0x3B50_0000),
            &BootOp::WaitReady,
            &BootOp::Shell,
        ]
    );
    assert_eq!(
        text,
        "========================================\n  ai-os v0.4.0\n  EL2 Hypervisor + Linux Driver VM\n\
         \x20 Board: Raspberry Pi 4 (BCM2711)\n========================================\n\n\
         [kernel] UART:        OK @ 0xFE201000\n[kernel] Framebuffer: OK (1280x720 @ 32bpp)\n\
         [kernel] Exception Level: EL2\n[kernel] Cores 1-3:   parked\n[kernel] SD card:     OK\n\
         [kernel] FAT32:       OK\n[kernel] Linux VM:    loading...\n\
         [kernel] Linux VM:    kernel OK (4882 KB)\n[kernel] Linux VM:    initrd OK (2 KB)\n\
         [kernel] Linux VM:    DTB OK (777 bytes)\n\
         [kernel] Linux VM:    DTB patched (initrd @ 0x02000000+3000)\n\
         [kernel] Stage-2 MMU: OK (4GB identity map)\n\
         [kernel] Launching Linux driver VM on core 1...\n\
         [kernel] Core 1: spin table written, SEV sent\n\
         [kernel] Linux VM launched (core 1 released)\n[kernel] USB HID:     waiting for Linux\n\
         [kernel] Entering ai-os shell...\nType 'help' for available commands.\n\n"
    );
}

#[test]
fn without_a_display_or_a_card_the_uart_is_left() {
    let (ops, text) = boot(Board::Rpi3, 0, 0, 1, [0, 1, 1]);
    assert!(!ops.contains(&BootOp::Blink(5, 100, 100)));
    assert!(!ops.contains(&BootOp::InitFaultConsole));
    assert!(!ops.contains(&BootOp::Mount));
    assert!(!ops.contains(&BootOp::SetupTables));
    assert_eq!(ops.last(), Some(&BootOp::UartShell));
    assert!(text.contains("OK @ 0x3F201000\n[kernel] Framebuffer: FAILED -- UART-only mode\n"));
    assert!(text.contains("[kernel] SD card:     FAILED -- check SD card\n"));
    assert!(text.ends_with(
        "[kernel] Linux VM:    FAILED -- vmlinuz-rpi missing from SD card\n\
         [kernel] Copy vmlinuz-rpi to SD card root and reboot.\n\
         [kernel] Entering UART-only shell...\n\n"
    ));
}

#[test]
fn each_missing_file_is_named() {
    let (ops, text) = boot(Board::Rpi4, 1, 1, 0, [1, 0, 1]);
    assert_eq!(ops.last(), Some(&BootOp::UartShell));
    assert!(!ops.contains(&BootOp::Launch(0x3B50_0000)));
    assert!(text.contains("[kernel] FAT32:       FAILED\n"));
    assert!(text.ends_with(
        "FAILED -- initrd.gz missing from SD card\n[kernel] Copy initrd.gz to SD card root and reboot.\n\
         [kernel] Entering UART-only shell...\n\n"
    ));
    let (ops, text) = boot(Board::Rpi4, 1, 1, 1, [1, 1, 0]);
    assert_eq!(ops.last(), Some(&BootOp::UartShell));
    assert!(!ops.contains(&BootOp::SetupDtb(1)));
    assert!(text.ends_with(
        "[kernel] Linux VM:    FAILED -- bcm2711.dtb missing from SD card\n\
         [kernel] Entering UART-only shell...\n\n"
    ));
}

#[test]
fn a_panic_blinks_three_short_three_long_three_short() {
    let mut m = panic_round(Board::Rpi4);
    let mut ops: Vec<RegOp> = Vec::new();
    while let Next::Op(op) = m.next() {
        ops.push(op);
        m.answer(0);
    }
    assert_eq!(ops.len(), 37);
    for i in 0..9 {
        let on = if (3..6).contains(&i) { 450_000 } else { 150_000 };
        assert_eq!(ops[4 * i], led_on(Board::Rpi4));
        assert_eq!(ops[4 * i + 1], RegOp::Nops(on));
        assert_eq!(ops[4 * i + 2], led_off(Board::Rpi4));
        assert_eq!(ops[4 * i + 3], RegOp::Nops(150_000));
    }
    assert_eq!(ops[36], RegOp::Nops(750_000));
}

/// Waits for a guest that becomes ready at look `ready`, and whose core left `mark`.
fn wait(ready: u32, mark: u32) -> (bool, u32, String) {
    let mut m = wait_for_linux_ready();
    let mut looks = 0;
    let mut text: Vec<u8> = Vec::new();
    loop {
        match m.next() {
            Next::Op(WaitOp::Reg(RegOp::Read(0x0020_0000))) => {
                looks += 1;
                m.answer(if looks == ready { 0xAA55AA55 } else { 0 });
            }
            Next::Op(WaitOp::Reg(RegOp::Read(0x0020_1000))) => m.answer(mark),
            Next::Op(WaitOp::Reg(RegOp::Nops(n))) => {
                assert_eq!(n, 150_000);
                m.answer(0);
            }
            Next::Op(WaitOp::Reg(_)) => panic!("nothing else is expected"),
            Next::Op(WaitOp::Print(t)) => {
                text.extend_from_slice(&t);
                m.answer(0);
            }
            Next::Done(ok) => return (ok, looks, String::from_utf8(text).unwrap()),
        }
    }
}

#[test]
fn a_guest_that_is_ready_is_not_waited_for() {
    let ok = " OK\n[kernel] USB HID: Linux driver VM ready, keyboard active\n";
    assert_eq!(wait(1, 0), (true, 1, ok.to_string()));
    assert_eq!(wait(25, 0), (true, 25, format!("..{}", ok)));
}

#[test]
fn core_1_is_reported_on_after_three_seconds() {
    let (_, _, text) = wait(31, 0xC001_0001);
    assert!(text.starts_with(
        "...\n[kernel] Core 1: woke up and reached trampoline (marker=0xC0010001)\n\
         [kernel] Core 1: Linux ERET fired \u{2014} waiting for hid_daemon...\n OK\n"
    ));
    let (_, _, text) = wait(31, 0xAB);
    assert!(text.starts_with(
        "...\n[kernel] Core 1: DID NOT WAKE (marker=0x000000AB) \u{2014} spin table not working\n OK\n"
    ));
}

#[test]
fn the_wait_has_an_end() {
    let (ok, looks, text) = wait(0, 0);
    assert!(!ok);
    assert_eq!(looks, 301);
    assert_eq!(text.matches('.').count(), 30);
    assert!(text.ends_with(
        " timeout!\n[kernel] USB HID: Linux driver VM did not respond\n\
         [kernel] Falling back to UART-only mode\n"
    ));
}

#[test]
fn a_key_is_waited_for() {
    let mut m = read_char_blocking();
    assert_eq!(m.next(), Next::Op(KeyOp::Poll));
    m.answer(None);
    assert_eq!(m.next(), Next::Op(KeyOp::Yield));
    m.answer(None);
    assert_eq!(m.next(), Next::Op(KeyOp::Poll));
    m.answer(Some(0));
    assert_eq!(m.next(), Next::Done(0));
}

#[test]
fn keys_come_from_the_guest_or_the_uart() {
    let mut m = getc();
    m.answer(None);
    assert_eq!(m.next(), Next::Op(KeyOp::Uart));
    m.answer(Some(0));
    assert_eq!(m.next(), Next::Op(KeyOp::Yield));
    m.answer(None);
    m.answer(None);
    m.answer(Some(b'u'));
    assert_eq!(m.next(), Next::Done(b'u'));
    let mut m = getc();
    m.answer(Some(b'g'));
    assert_eq!(m.next(), Next::Done(b'g'));
}
