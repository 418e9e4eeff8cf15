use ai_os::board::Board;
use ai_os::ipc::poll_key;
use ai_os::linux_vm::{
    launch_linux, protect_framebuffer, setup_stage2_tables, EntryRegs, SharedMem, Stage2Regs,
    SHMEM_MAGIC,
};
use ai_os::framebuffer::Fb;
use ai_os::hv_console::{guest_fault, mirror, protect, GuestFault, HvConsole};
use ai_os::trampoline::{launch_linux_on_core1, LaunchOp};
use ai_os::usb_hid::{
    keyboard_getc, keyboard_ready, mouse_get_delta, mouse_get_state, mouse_ready, usb_init,
    usb_update, MouseState,
};

fn shared() -> SharedMem {
    SharedMem {
        magic: SHMEM_MAGIC,
        write_idx: 0,
        read_idx: 0,
        _pad: 0,
        ring: [0; 256],
        mouse_x: 0,
        mouse_y: 0,
        mouse_btns: 0,
        mouse_flags: 0,
        _pad2: [0; 2],
    }
}

fn press(m: &mut SharedMem, c: u8) {
    m.ring[(m.write_idx % 256) as usize] = c;
    m.write_idx = m.write_idx.wrapping_add(1);
}

#[test]
fn keys_come_in_the_order_in_which_they_were_pressed() {
    let mut m = shared();
    assert_eq!(m.read_char(), None);
    for c in b"hello" {
        press(&mut m, *c);
    }
    for c in b"hello" {
        assert_eq!(m.read_char(), Some(*c));
    }
    assert_eq!(m.read_char(), None);
    assert_eq!(m.read_idx, 5);
}

#[test]
fn the_ring_and_its_indices_wrap() {
    let mut m = shared();
    m.write_idx = 0xFFFF_FFFF;
    m.read_idx = 0xFFFF_FFFF;
    press(&mut m, b'a');
    press(&mut m, b'b');
    assert_eq!(m.ring[255], b'a');
    assert_eq!(m.ring[0], b'b');
    assert_eq!(m.read_char(), Some(b'a'));
    assert_eq!(m.read_idx, 0);
    assert_eq!(m.read_char(), Some(b'b'));
    assert_eq!(m.read_char(), None);
}

#[test]
fn no_key_is_taken_before_the_guest_is_ready() {
    let mut m = shared();
    press(&mut m, b'x');
    m.magic = 0;
    assert!(!m.is_ready());
    assert_eq!(poll_key(&mut m), None);
    assert_eq!(m.read_idx, 0);
    m.magic = 0xAA55AA55;
    assert!(m.is_ready());
    assert_eq!(poll_key(&mut m), Some(b'x'));
    assert_eq!(poll_key(&mut m), None);
}

#[test]
fn a_mouse_event_is_taken_once() {
    let mut m = shared();
    assert_eq!(m.read_mouse(), None);
    m.mouse_x = -5;
    m.mouse_y = 7;
    m.mouse_btns = 3;
    m.mouse_flags = 0x81;
    assert_eq!(m.read_mouse(), Some((-5, 7, 3)));
    assert_eq!(m.mouse_flags, 0x80);
    assert_eq!((m.mouse_x, m.mouse_y, m.mouse_btns), (0, 0, 3));
    assert_eq!(m.read_mouse(), None);
}

#[test]
fn the_page_tables_map_memory_to_itself() {
    let mut pool = vec![0xDEAD_BEEF_u64; 8192];
    let regs = setup_stage2_tables(&mut pool);
    assert_eq!(
        regs,
        Stage2Regs { mair_el2: 0xFF, vtcr_el2: 0x8000_3560, vttbr_el2: 0x3B40_0000 }
    );
    assert_eq!(&pool[0..5], &[0x3B40_1003, 0x3B40_2003, 0x3B40_3003, 0x3B40_4003, 0]);
    assert_eq!(pool[511], 0);
    assert_eq!(pool[512], 0x7C1);
    assert_eq!(pool[513], 0x20_07C1);
    assert_eq!(pool[512 + 512], 0x4000_07C1);
    // The last block of normal memory, the first of device memory, and the last.
    assert_eq!(pool[512 + 2015], 0xFBE0_07C1);
    assert_eq!(pool[512 + 2016], 0xFC00_07C5);
    assert_eq!(pool[512 + 2047], 0xFFE0_07C5);
    assert_eq!(pool[512 + 2048], 0);
    assert_eq!(pool[8191], 0);
}

#[test]
fn the_framebuffer_becomes_read_only() {
    let mut pool = vec![0u64; 8192];
    setup_stage2_tables(&mut pool);
    let before = pool.clone();
    assert!(!protect_framebuffer(&mut pool, 0, 100));
    assert!(!protect_framebuffer(&mut pool, 100, 0));
    assert_eq!(pool, before);
    // From the middle of block 480 to the first byte of block 482.
    assert!(protect_framebuffer(&mut pool, 0x3C10_0000, 0x30_0001));
    assert_eq!(pool[512 + 479], before[512 + 479]);
    assert_eq!(pool[512 + 480], 0x3C00_0741);
    assert_eq!(pool[512 + 481], 0x3C20_0741);
    assert_eq!(pool[512 + 482], 0x3C40_0741);
    assert_eq!(pool[512 + 483], before[512 + 483]);
    let changed = (0..8192).filter(|i| pool[*i] != before[*i]).count();
    assert_eq!(changed, 3);
}

#[test]
fn blocks_beyond_4_gb_are_left_out() {
    let mut pool = vec![0u64; 8192];
    setup_stage2_tables(&mut pool);
    let before = pool.clone();
    assert!(protect_framebuffer(&mut pool, 0xFFE0_0000, 0x100_0000));
    assert_eq!(pool[512 + 2047], 0xFFE0_0745);
    pool[512 + 2047] = before[512 + 2047];
    assert_eq!(pool, before);
    assert!(protect_framebuffer(&mut pool, 0x2_0000_0000, 0x1000));
    assert_eq!(pool, before);
}

#[test]
fn linux_is_entered_with_its_device_tree() {
    assert_eq!(
        launch_linux(0x3B50_0000),
        EntryRegs {
            hcr_el2: 0x8000_0003,
            spsr_el2: 0x3C5,
            elr_el2: 0x0040_0000,
            x0: 0x3B50_0000,
            x1: 0,
            x2: 0,
            x3: 0
        }
    );
}

#[test]
fn the_trampoline_carries_its_numbers() {
    let mut words: Vec<u32> = Vec::new();
    for op in launch_linux_on_core1(0x3B50_0000) {
        if let LaunchOp::Word(addr, word) = op {
            assert_eq!(addr, 0x0010_0000 + 4 * words.len() as u64);
            words.push(word);
        }
    }
    assert_eq!(words.len(), 22);
    assert_eq!(words[0], 0x580001C9);
    assert_eq!(words[10], 0xD51C110B);
    assert_eq!(words[12], 0xD69F03E0);
    assert_eq!(words[13], 0xD503201F);
    // Each load reaches its number.
    let numbers: [u64; 4] = [0x3B50_0000, 0x0040_0000, 0x8000_003F, 0x3C5];
    for i in 0..4usize {
        let w = words[i];
        assert_eq!(w >> 24, 0x58);
        assert_eq!(w & 31, 9 + i as u32);
        let at = i + ((w >> 5) & 0x7FFFF) as usize;
        let v = words[at] as u64 | (words[at + 1] as u64) << 32;
        assert_eq!(v, numbers[i]);
    }
}

#[test]
fn core_1_is_released_after_the_trampoline_was_written() {
    let ops = launch_linux_on_core1(0x3B50_0000);
    assert!(ops[..22].iter().all(|op| matches!(op, LaunchOp::Word(_, _))));
    assert_eq!(
        &ops[22..],
        &[
            LaunchOp::PublishCode(0x0010_0000),
            LaunchOp::Entry(0xE0, 0x0010_0000),
            LaunchOp::PublishAndWake(0xE0),
        ]
    );
}

#[test]
fn the_fault_console_guards_the_framebuffer() {
    assert_eq!(mirror(&None), HvConsole { base: 0, pitch: 0, width: 0, height: 0 });
    let fb = Fb {
        base: 0x3C10_0000,
        width: 1280,
        height: 720,
        pitch: 5120,
        cols: 80,
        rows: 45,
        col: 0,
        row: 0,
    };
    let con = mirror(&Some(fb));
    assert_eq!(con, HvConsole { base: 0x3C10_0000, pitch: 5120, width: 1280, height: 720 });
    let mut pool = vec![0u64; 8192];
    setup_stage2_tables(&mut pool);
    let before = pool.clone();
    assert!(protect(&con, &mut pool));
    for i in 0..8192usize {
        // 0x3C10_0000 to 0x3C48_4000 lies in the blocks 480 to 482.
        let held = (512 + 480..=512 + 482).contains(&i);
        assert_eq!(pool[i], if held { before[i] & !0x80 } else { before[i] });
    }
    let before = pool.clone();
    assert!(!protect(&mirror(&None), &mut pool));
    assert_eq!(pool, before);
}

#[test]
fn only_the_board_with_a_driver_has_usb() {
    let s = MouseState { buttons: 1, x: 2, y: -3, dx: 4, dy: -5 };
    assert_eq!(usb_init(Board::Rpi4, 1, 1, 1), (true, true));
    assert_eq!(usb_init(Board::Rpi4, 1, 1, 0), (true, false));
    assert_eq!(usb_init(Board::Rpi4, 1, 0, 1), (false, true));
    assert_eq!(usb_init(Board::Rpi4, 0, 1, 1), (false, false));
    assert_eq!(usb_init(Board::Rpi3, 1, 1, 1), (false, false));
    assert!(usb_update(Board::Rpi4));
    assert!(!usb_update(Board::Rpi3));
    assert!(keyboard_ready(Board::Rpi4, 1));
    assert!(!keyboard_ready(Board::Rpi4, 2));
    assert!(!keyboard_ready(Board::Rpi3, 1));
    assert_eq!(keyboard_getc(Board::Rpi4, b'k'), b'k');
    assert_eq!(keyboard_getc(Board::Rpi3, b'k'), 0);
    assert!(mouse_ready(Board::Rpi4, 1));
    assert!(!mouse_ready(Board::Rpi3, 1));
    assert_eq!(mouse_get_state(Board::Rpi4, &s), (1, 2, -3));
    assert_eq!(mouse_get_state(Board::Rpi3, &s), (0, 0, 0));
    assert_eq!(mouse_get_delta(Board::Rpi4, &s), (4, -5));
    assert_eq!(mouse_get_delta(Board::Rpi3, &s), (0, 0));
    assert_eq!(MouseState::new(), MouseState { buttons: 0, x: 0, y: 0, dx: 0, dy: 0 });
}

#[test]
fn stores_to_the_framebuffer_are_left_out() {
    let con = HvConsole { base: 0x3C10_0000, pitch: 5120, width: 1280, height: 720 };
    // A data abort of a lower level: a write, level 2 permission fault.
    let esr = 0x24 << 26 | 1 << 6 | 0x0E;
    let at = |ipa: u64| ipa >> 12 << 4;
    let skip = GuestFault::Skip(0x8_0004);
    assert_eq!(guest_fault(&con, esr, 0x8_0000, at(0x3C20_0000)), skip);
    // All of the blocks that hold the framebuffer, and no others.
    assert_eq!(guest_fault(&con, esr, 0x8_0000, at(0x3C00_0000)), skip);
    assert_eq!(guest_fault(&con, esr, 0x8_0000, at(0x3C5F_F000)), skip);
    for ipa in [0x3BFF_F000, 0x3C60_0000, 0] {
        assert_eq!(guest_fault(&con, esr, 0x8_0000, at(ipa)), GuestFault::Report);
    }
    // Reads, other faults and other exceptions are reported.
    for other in [0x24 << 26 | 0x0E, 0x24 << 26 | 1 << 6 | 0x06, 0x20 << 26 | 1 << 6 | 0x0E] {
        let r = guest_fault(&con, other, 0x8_0000, at(0x3C20_0000));
        assert_eq!(r, GuestFault::Report);
    }
    let none = HvConsole { base: 0, ..con };
    assert_eq!(guest_fault(&none, esr, 0x8_0000, 0), GuestFault::Report);
}
