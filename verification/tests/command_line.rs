use ai_os::commands::{
    cat_chunk, execute, get_cat_head, get_cat_tail, get_elinfo_text,
    get_info_text, get_ls_text, get_usbstatus_text, to_upper, Action,
};
use ai_os::fat32::FileInfo;
use ai_os::linux_vm::SharedMem;
use ai_os::shell::{decode, shell, shell_uart_only, trim, Shell, ShellOp};
use ai_os::text::{push_decimal, push_hex, push_latin1, push_spaces, same_bytes};

fn text(bytes: Vec<u8>) -> String {
    String::from_utf8(bytes).unwrap()
}

fn printed(line: &str) -> String {
    match execute(line) {
        Action::Print(t) => text(t),
        _ => panic!("a text is expected"),
    }
}

#[test]
fn numbers_are_printed() {
    let mut v: Vec<u8> = Vec::new();
    push_decimal(&mut v, 0);
    push_spaces(&mut v, 2);
    push_decimal(&mut v, 18_446_744_073_709_551_615);
    push_spaces(&mut v, 0);
    push_hex(&mut v, 0xABCDE, 4, true);
    push_hex(&mut v, 0xAB, 4, false);
    assert_eq!(text(v), "0  18446744073709551615BCDE00ab");
}

#[test]
fn bytes_are_shown_as_characters_of_their_code() {
    let mut v: Vec<u8> = Vec::new();
    for c in [0x41u8, 0x7F, 0x80, 0xE9, 0xFF] {
        push_latin1(&mut v, c);
    }
    assert_eq!(text(v), "A\u{7f}\u{80}\u{e9}\u{ff}");
    assert!(same_bytes(b"ab", b"ab"));
    assert!(!same_bytes(b"ab", b"abc"));
    assert!(!same_bytes(b"ab", b"ac"));
}

#[test]
fn white_space_is_trimmed_as_std_does() {
    for s in ["", " ", "a", " a b ", "\t\u{85}x\u{a0}\u{2003}", "\u{3000}\u{2028}", "a\u{200b}", "\u{1c}a"] {
        assert_eq!(trim(s), s.trim());
    }
    for c in 0..0x3100u32 {
        if let Some(c) = char::from_u32(c) {
            let s = c.to_string();
            assert_eq!(trim(&s).is_empty(), c.is_whitespace());
        }
    }
}

#[test]
fn only_valid_utf8_is_decoded() {
    assert_eq!(decode(b"caf\xC3\xA9"), Some("caf\u{e9}"));
    assert_eq!(decode(b""), Some(""));
    assert_eq!(decode(b"\xC3"), None);
    assert_eq!(decode(b"\xED\xA0\x80"), None);
    assert_eq!(decode(b"\xC0\x80"), None);
}

/// Presses keys until they run out; returns what was executed and what was shown.
fn session(mut m: Shell, keys: &[u8]) -> (Vec<String>, String) {
    let mut keys = keys.iter();
    let mut lines: Vec<String> = Vec::new();
    let mut shown: Vec<u8> = Vec::new();
    loop {
        match m.next() {
            ShellOp::Print(t) => {
                shown.extend_from_slice(&t);
                m.answer(0);
            }
            ShellOp::Echo(c) => {
                shown.push(c);
                m.answer(0);
            }
            ShellOp::Execute(line) => {
                lines.push(line);
                m.answer(0);
            }
            ShellOp::Key | ShellOp::UartKey => match keys.next() {
                Some(k) => m.answer(*k),
                None => return (lines, String::from_utf8_lossy(&shown).to_string()),
            },
        }
    }
}

#[test]
fn a_line_is_executed_when_it_is_complete() {
    let (lines, shown) = session(shell(), b" help \recho  hi\n\nx");
    assert_eq!(lines, vec!["help", "echo  hi", ""]);
    assert_eq!(shown, "ai-os>  help \nai-os> echo  hi\nai-os> \nai-os> x");
}

#[test]
fn backspace_edits_the_line() {
    let (lines, shown) = session(shell(), b"\x08hex\x08\x7Flp\r");
    assert_eq!(lines, vec!["hlp"]);
    assert_eq!(shown, "ai-os> hex\x08 \x08\x08 \x08lp\nai-os> ");
}

#[test]
fn a_line_has_at_most_127_bytes() {
    let mut keys = vec![b'a'; 200];
    keys.push(13);
    let (lines, shown) = session(shell(), &keys);
    assert_eq!(lines[0].len(), 127);
    assert_eq!(shown.matches('a').count(), 127 + 2);
}

#[test]
fn a_line_that_is_not_utf8_is_empty() {
    assert_eq!(session(shell(), b"a\xFF\r").0, vec![""]);
    assert_eq!(session(shell(), "\u{e9}\r".as_bytes()).0, vec!["\u{e9}"]);
}

#[test]
fn the_uart_shell_says_so() {
    let m = shell_uart_only();
    let (_, shown) = session(m, b"");
    assert_eq!(
        shown,
        "[kernel] UART-only mode. Connect serial cable (115200 8N1).\n\nai-os> "
    );
    let mut m = shell_uart_only();
    m.answer(0);
    m.answer(0);
    assert_eq!(m.next(), ShellOp::UartKey);
    let mut m = shell();
    m.answer(0);
    assert_eq!(m.next(), ShellOp::Key);
}

#[test]
fn commands_are_recognised() {
    assert_eq!(execute(""), Action::Nothing);
    assert_eq!(execute(" help"), Action::Nothing);
    assert_eq!(execute("info"), Action::Info);
    assert_eq!(execute("elinfo now"), Action::ElInfo);
    assert_eq!(execute("usbstatus"), Action::UsbStatus);
    assert_eq!(execute("ls"), Action::List);
    assert_eq!(execute("clear"), Action::Clear(b"ai-os v0.4.0\n".to_vec()));
    assert_eq!(execute("halt"), Action::Halt(b"Halting CPU. Goodbye.\n".to_vec()));
    assert_eq!(printed("HELP"), "Unknown command: 'HELP'. Type 'help'.\n");
    assert_eq!(printed("help\t"), "Unknown command: 'help\t'. Type 'help'.\n");
    assert_eq!(printed("echo  a  b "), "a  b\n");
    assert_eq!(printed("echo"), "\n");
    assert_eq!(printed("cat"), "Usage: cat <FILENAME.EXT>\n");
    assert_eq!(printed("cat   "), "Usage: cat <FILENAME.EXT>\n");
    assert!(printed("help").starts_with("Available commands:\n  help       \u{2014} this help\n"));
    assert!(printed("help").ends_with("  halt       \u{2014} halt CPU\n"));
    assert_eq!(printed("help").lines().count(), 11);
    assert!(printed("memmap").contains("  0x3B40_0000  Stage-2 page tables (64KB)\n"));
    assert_eq!(printed("memmap").lines().count(), 9);
}

fn stored(args: &str) -> [u8; 11] {
    match execute(&format!("cat {}", args)) {
        Action::Cat(name, typed) => {
            assert_eq!(typed, args);
            name
        }
        _ => panic!("a file is expected"),
    }
}

#[test]
fn typed_names_become_stored_names() {
    assert_eq!(&stored("readme.txt"), b"README  TXT");
    assert_eq!(&stored("A"), b"A          ");
    assert_eq!(&stored("verylongname.text"), b"VERYLONGTEX");
    assert_eq!(&stored(".gz"), b"        GZ ");
    assert_eq!(&stored("a.b.c"), b"A       B.C");
    assert_eq!(&stored("x."), b"X          ");
    assert_eq!(&stored("two words"), b"TWO WORD   ");
    assert_eq!(&stored("abcdefghijklmnopq.txt"), b"ABCDEFGH   ");
    assert_eq!(&stored("\u{e9}.txt"), b"\xC3\xA9      TXT");
}

#[test]
fn upper_case_goes_as_far_as_there_is_room() {
    let mut dst = [b'.'; 6];
    assert_eq!(to_upper(b"az{`", &mut dst), 4);
    assert_eq!(&dst, b"AZ{`..");
    assert_eq!(to_upper(b"abcdefghi", &mut dst), 6);
    assert_eq!(&dst, b"ABCDEF");
}

#[test]
fn a_file_is_shown_up_to_a_limit() {
    let mut shown = 0;
    assert_eq!(cat_chunk(&mut shown, b"a\r\nb\r"), b"a\nb".to_vec());
    assert_eq!(shown, 3);
    assert_eq!(cat_chunk(&mut shown, &[b'x'; 3000]).len(), 2045);
    assert_eq!(shown, 2048);
    assert_eq!(cat_chunk(&mut shown, b"more"), b"".to_vec());
    // The same in two pieces.
    let whole: Vec<u8> = (0..2500).map(|i| if i % 5 == 0 { 13 } else { 65 }).collect();
    let mut a = 0;
    let all = cat_chunk(&mut a, &whole);
    let mut b = 0;
    let mut parts = cat_chunk(&mut b, &whole[..512]);
    parts.extend(cat_chunk(&mut b, &whole[512..]));
    assert_eq!(all, parts);
    assert_eq!(a, b);
    assert_eq!(text(get_cat_head("x y")), "--- x y ---\n");
    assert_eq!(text(get_cat_tail(true, "x")), "\n--- end ---\n");
    assert_eq!(text(get_cat_tail(false, "x")), "File not found: x\n");
}

fn info(name: &[u8; 12], size: u32, is_dir: bool) -> FileInfo {
    FileInfo { name: *name, size, is_dir, cluster: 0 }
}

#[test]
fn files_are_listed_in_columns() {
    let files = vec![
        info(b"README.TXT\0\0", 1500, false),
        info(b"OVERLAYS\0\0\0\0", 0, true),
        info(b"LONGNAME.EXT", 4294967295, false),
        info(b"\xC3\xA9\0\0\0\0\0\0\0\0\0\0", 7, false),
        info(b"\xC3\0\0\0\0\0\0\0\0\0\0\0", 8, false),
    ];
    let mut expected = String::new();
    expected.push_str("Root directory:\n");
    expected.push_str(&format!("  {:<12} {:>10}  TYPE\n", "NAME", "SIZE"));
    expected.push_str("  ------------------------------\n");
    expected.push_str(&format!("  {:<12} {:>10}  FILE\n", "README.TXT", 1500));
    expected.push_str(&format!("  {:<12} {:>10}  DIR\n", "OVERLAYS", ""));
    expected.push_str(&format!("  {:<12} {:>10}  FILE\n", "LONGNAME.EXT", 4294967295u32));
    expected.push_str(&format!("  {:<12} {:>10}  FILE\n", "\u{e9}", 7));
    expected.push_str(&format!("  {:<12} {:>10}  FILE\n", "?", 8));
    expected.push_str("  5 item(s)\n");
    assert_eq!(text(get_ls_text(&files)), expected);
    assert!(text(get_ls_text(&vec![])).ends_with("------\n  0 item(s)\n"));
}

#[test]
fn the_state_of_the_system_is_told() {
    assert_eq!(
        text(get_info_text(8)),
        "ai-os v0.4.0 \u{2014} EL2 Hypervisor + Linux Driver VM\n\
         Board: Raspberry Pi 4 (BCM2711, Cortex-A72)\nArchitecture: AArch64\nCurrent EL: EL2\n\
         Linux driver VM: EL1 (core 1)\nUSB HID IPC: shared memory @ 0x00200000\n"
    );
    assert_eq!(
        text(get_elinfo_text(0xC, 0x8000_003F, 0x3B40_0000)),
        "CurrentEL:  EL3\nHCR_EL2:    0x000000008000003f\n  VM=1 (stage-2 enabled)\n\
         \x20 RW=1 (EL1 is AArch64)\nVTTBR_EL2:  0x000000003b400000\n"
    );
}

#[test]
fn the_state_of_the_guest_is_told() {
    let mut m = SharedMem {
        magic: 0xAA55AA55,
        write_idx: 12,
        read_idx: 10,
        _pad: 0,
        ring: [0; 256],
        mouse_x: 0,
        mouse_y: 0,
        mouse_btns: 0,
        mouse_flags: 0,
        _pad2: [0; 2],
    };
    assert_eq!(
        text(get_usbstatus_text(&m)),
        "Linux driver VM: READY\nUSB HID daemon:  RUNNING\nKeyboard:        ACTIVE\n\
         IPC ring buffer: write=12 read=10\n"
    );
    m.magic = 0xBEEF;
    assert_eq!(
        text(get_usbstatus_text(&m)),
        "Linux driver VM: NOT READY (magic=0x0000beef)\nUSB HID daemon:  waiting...\n"
    );
}
