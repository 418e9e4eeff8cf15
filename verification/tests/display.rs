use ai_os::framebuffer::{clear_screen, get_info, init, init_inner, init_message, Fb, FbWriter, BG, FG};
use ai_os::glyph::{draw_char, Font, Geometry};
use ai_os::hv_console;
use ai_os::hv_console::{base_addr, decode_ec, decode_fsc, hv_fault_screen, HvConsole};

/// A font in which no two characters look the same, and the space is blank.
fn font() -> Font {
    let mut f = [[0u8; 8]; 96];
    for i in 1..96 {
        f[i][0] = 0x80;
        f[i][1] = i as u8;
        f[i][7] = 0x01;
    }
    f
}

fn fb(width: u32, height: u32, pitch: u32) -> Fb {
    Fb {
        base: 0x3C10_0000,
        width,
        height,
        pitch,
        cols: width / 16,
        rows: height / 16,
        col: 0,
        row: 0,
    }
}

struct Console {
    fb: Option<Fb>,
    px: Vec<u32>,
    font: Font,
}

impl Console {
    fn new(width: u32, height: u32) -> Console {
        let f = fb(width, height, 4 * width + 8);
        let px = vec![7u32; ((width + 2) * height) as usize];
        let mut c = Console { fb: Some(f), px, font: font() };
        clear_screen(&mut c.fb, &mut c.px);
        c
    }

    fn write(&mut self, s: &str) {
        FbWriter.write_str(&mut self.fb, &mut self.px, &self.font, s);
    }

    fn cursor(&self) -> (u32, u32) {
        let f = self.fb.unwrap();
        (f.col, f.row)
    }

    /// The character in a cell, found by its second line; a space where it is blank.
    fn at(&self, col: u32, row: u32) -> char {
        let f = self.fb.unwrap();
        let stride = f.pitch / 4;
        let mut v = 0u32;
        for bit in 0..8 {
            let x = 16 * col + 2 * bit;
            let y = 16 * row + 2;
            let p = self.px[(y * stride + x) as usize];
            for (dx, dy) in [(1, 0), (0, 1), (1, 1)] {
                assert_eq!(self.px[((y + dy) * stride + x + dx) as usize], p);
            }
            assert!(p == FG || p == BG);
            v = 2 * v + (p == FG) as u32;
        }
        (v as u8 + 0x20) as char
    }

    fn line(&self, row: u32) -> String {
        (0..self.fb.unwrap().cols).map(|c| self.at(c, row)).collect()
    }
}

#[test]
fn the_gpu_is_asked_for_a_framebuffer() {
    let m = init_message();
    assert_eq!(m[0], 140);
    assert_eq!(&m[2..7], &[0x48003, 8, 0, 1280, 720]);
    assert_eq!(&m[7..12], &[0x48004, 8, 8, 1280, 720]);
    assert_eq!(&m[12..17], &[0x48009, 8, 8, 0, 0]);
    assert_eq!(&m[17..21], &[0x48005, 4, 4, 32]);
    assert_eq!(&m[21..25], &[0x48006, 4, 4, 1]);
    assert_eq!(&m[25..30], &[0x40001, 8, 8, 4096, 0]);
    assert_eq!(&m[30..36], &[0x40008, 4, 4, 0, 0, 0]);
}

#[test]
fn the_reply_describes_the_framebuffer() {
    let mut m = init_message();
    m[28] = 0xFC10_0000;
    m[33] = 5120;
    let mut found: Option<Fb> = None;
    assert!(init_inner(&mut found, true, &m));
    let f = found.unwrap();
    assert_eq!(f, Fb { pitch: 5120, ..fb(1280, 720, 5120) });
    assert_eq!((f.cols, f.rows), (80, 45));
    assert!(f.is_sound());
    assert_eq!(get_info(&Some(f)), (0x3C10_0000, 5120, 1280, 720));
    assert_eq!(get_info(&None), (0, 0, 0, 0));
}

#[test]
fn unusable_replies_are_refused() {
    let mut m = init_message();
    m[28] = 0xFC10_0000;
    m[33] = 5120;
    for (acknowledged, depth, addr) in
        [(false, 32, 0xFC10_0000u32), (true, 24, 0xFC10_0000), (true, 32, 0)]
    {
        m[20] = depth;
        m[28] = addr;
        // What was there before stays.
        for was in [None, Some(fb(64, 48, 256))] {
            let mut f = was;
            assert!(!init_inner(&mut f, acknowledged, &m));
            assert_eq!(f, was);
            let mut px = vec![7u32; 64 * 48];
            assert!(!init(&mut f, &mut px, acknowledged, &m));
            assert_eq!(f, was);
            assert!(px.iter().all(|p| *p == 7));
        }
    }
}

#[test]
fn a_new_display_is_cleared() {
    let mut m = init_message();
    m[10] = 64;
    m[11] = 48;
    m[28] = 0xC010_0000;
    m[33] = 264;
    let mut f = Some(fb(32, 32, 128));
    let mut px = vec![7u32; 66 * 48];
    assert!(init(&mut f, &mut px, true, &m));
    assert!(px.iter().all(|p| *p == 0xFF1A_1A2E));
    assert_eq!(get_info(&f), (0x0010_0000, 264, 64, 48));
    let f = f.unwrap();
    assert_eq!((f.col, f.row, f.cols, f.rows), (0, 0, 4, 3));
}

#[test]
fn unsound_layouts_are_recognised() {
    assert!(fb(64, 48, 256).is_sound());
    assert!(!fb(64, 48, 252).is_sound());
    assert!(!fb(64, 48, 257).is_sound());
    assert!(!fb(64, 8, 256).is_sound());
    assert!(!fb(64, 0x1000_0000, 256).is_sound());
    assert!(!Fb { row: 3, ..fb(64, 48, 256) }.is_sound());
    assert!(!Fb { col: 4, ..fb(64, 48, 256) }.is_sound());
    let g = Geometry { width: 64, height: 48, pitch: 264 };
    assert!(g.is_sound());
    assert_eq!(g.pixels(), 66 * 48);
}

#[test]
fn clearing_paints_everything() {
    let mut c = Console::new(64, 50);
    assert!(c.px.iter().all(|p| *p == 0xFF1A_1A2E));
    c.write("ab\n");
    clear_screen(&mut c.fb, &mut c.px);
    assert!(c.px.iter().all(|p| *p == BG));
    assert_eq!(c.cursor(), (0, 0));
}

#[test]
fn without_a_display_nothing_is_drawn() {
    let mut none: Option<Fb> = None;
    let mut px = vec![5u32; 10];
    clear_screen(&mut none, &mut px);
    FbWriter.write_str(&mut none, &mut px, &font(), "text");
    assert_eq!(px, vec![5u32; 10]);
    assert_eq!(none, None);
}

#[test]
fn text_appears_at_the_cursor() {
    let mut c = Console::new(64, 48);
    c.write("Hi");
    assert_eq!(c.line(0), "Hi  ");
    assert_eq!(c.cursor(), (2, 0));
    c.write("\rJ\n!");
    assert_eq!(c.line(0), "Ji  ");
    assert_eq!(c.line(1), "!   ");
    assert_eq!(c.cursor(), (1, 1));
}

#[test]
fn lines_wrap_and_the_text_moves_up() {
    let mut c = Console::new(64, 50);
    c.write("abcdefgh");
    assert_eq!((c.line(0), c.line(1)), ("abcd".to_string(), "efgh".to_string()));
    assert_eq!(c.cursor(), (0, 2));
    c.write("ijkl");
    assert_eq!(c.line(0), "efgh");
    assert_eq!(c.line(1), "ijkl");
    assert_eq!(c.line(2), "    ");
    assert_eq!(c.cursor(), (0, 2));
    c.write("\n");
    assert_eq!(c.line(0), "ijkl");
    assert_eq!(c.line(1), "    ");
}

#[test]
fn a_single_line_does_not_move() {
    let mut c = Console::new(64, 16);
    c.write("ab\nc");
    assert_eq!(c.line(0), "cb  ");
    assert_eq!(c.cursor(), (1, 0));
}

#[test]
fn backspace_takes_a_character_back() {
    let mut c = Console::new(64, 48);
    c.write("\x08ab\x08 \x08");
    assert_eq!(c.line(0), "a   ");
    assert_eq!(c.cursor(), (1, 0));
    c.write("\x7F\x7F");
    assert_eq!(c.line(0), "    ");
    assert_eq!(c.cursor(), (0, 0));
}

#[test]
fn characters_without_a_bitmap_look_like_spaces() {
    let mut c = Console::new(64, 48);
    c.write("a\u{e9}b");
    assert_eq!(c.line(0), "a  b");
    FbWriter.write_bytes(&mut c.fb, &mut c.px, &c.font, &[0x1F, 0x41]);
    assert_eq!(c.line(1), " A  ");
}

#[test]
fn characters_are_clipped_at_the_edge() {
    let g = Geometry { width: 5, height: 5, pitch: 24 };
    let mut px = vec![1u32; 30];
    let mut f = [[0u8; 8]; 96];
    f[33] = [0xFF; 8];
    draw_char(&mut px, &g, &f, b'A', 0, 0, 2, 9, 8);
    for y in 0..5 {
        for x in 0..6 {
            assert_eq!(px[y * 6 + x], if x < 5 { 9 } else { 1 });
        }
    }
    draw_char(&mut px, &g, &f, b' ', 1, 1, 2, 9, 8);
    assert_eq!(px[0], 9);
}

#[test]
fn syndromes_have_names() {
    assert_eq!(decode_ec(0x00), "Unknown");
    assert_eq!(decode_ec(0x16), "HVC from AArch64");
    assert_eq!(decode_ec(0x24), "Data abort (lower EL)");
    assert_eq!(decode_ec(0x3C), "BRK instruction");
    assert_eq!(decode_ec(0x02), "Reserved");
    assert_eq!(decode_fsc(0x07), "Translation fault L3");
    assert_eq!(decode_fsc(0x0D), "Permission fault L1");
    assert_eq!(decode_fsc(0x21), "Alignment fault");
    assert_eq!(decode_fsc(0x3F), "Reserved FSC");
}

/// Reads a line of the fault console, with the colour of each character.
fn fault_line(px: &[u32], con: &HvConsole, row: u32) -> (String, Vec<u32>) {
    let stride = con.pitch / 4;
    let mut text = String::new();
    let mut colors: Vec<u32> = Vec::new();
    for col in 0..con.width / 24 {
        let mut v = 0u32;
        let mut color = 0xFF1A0000;
        for bit in 0..8 {
            let p = px[((24 * row + 3) * stride + 24 * col + 3 * bit) as usize];
            v = 2 * v + (p != 0xFF1A0000) as u32;
            if p != 0xFF1A0000 {
                color = p;
            }
        }
        text.push((v as u8 + 0x20) as char);
        colors.push(color);
    }
    (text.trim_end().to_string(), colors)
}

#[test]
fn a_fault_fills_the_display_with_its_report() {
    let con = hv_console::init(0x3C10_0000, 5120, 1280, 720);
    assert_eq!(base_addr(&con), 0x3C10_0000);
    let mut px = vec![0x1234_5678u32; 1280 * 720];
    let esr = (0x24u64 << 26) | 0x0200_0047;
    assert!(hv_fault_screen(&con, &mut px, &font(), esr, 0xFFFF_8000, 0x10, 0xFE_0000));
    let lines: Vec<String> = (0..30).map(|r| fault_line(&px, &con, r).0).collect();
    assert_eq!(lines[0], "   EL2 HYPERVISOR FAULT");
    assert_eq!(lines[1], "=".repeat(48));
    assert_eq!(lines[2], "ESR_EL2  : 0x0000000092000047");
    assert_eq!(lines[3], "  EC  = 0x24  Data abort (lower EL)");
    assert_eq!(lines[4], "  ISS = 0x000047");
    assert_eq!(lines[5], "    DFSC=0x07  Translation fault L3  WRITE");
    assert_eq!(lines[6], "ELR_EL2  : 0x00000000FFFF8000  <- faulting PC");
    assert_eq!(lines[7], "FAR_EL2  : 0x0000000000000010  <- virtual address");
    assert_eq!(lines[8], "HPFAR_EL2: 0x0000000000FE0000  IPA=0x00000000FE000000"[..53].to_string());
    assert_eq!(lines[9], "    device region     bad peripheral access");
    assert_eq!(lines[10], "-".repeat(48));
    assert_eq!(lines[11], "Linux crashed at EL1.  CPU halted.");
    assert_eq!(lines[12], "Power-cycle or reset to reboot.");
    assert!(lines[13..].iter().all(|l| l.is_empty()));
    assert_eq!(fault_line(&px, &con, 0).1[3], 0xFFFF4040);
    assert_eq!(fault_line(&px, &con, 2).1[20], 0xFF40FF90);
    assert_eq!(fault_line(&px, &con, 3).1[10], 0xFFFFAA00);
    assert_eq!(fault_line(&px, &con, 12).1[0], 0xFFFFFF44);
    // Nothing is left of what was there before.
    assert!(px.iter().all(|p| *p != 0x1234_5678));
}

#[test]
fn other_faults_have_other_lines() {
    let con = hv_console::init(1, 5120, 1280, 720);
    let mut px = vec![0u32; 1280 * 720];
    hv_fault_screen(&con, &mut px, &font(), (0x20u64 << 26) | 0x0D, 0, 0, 0);
    assert_eq!(fault_line(&px, &con, 5).0, "    IFSC=0x0D  Permission fault L1");
    assert_eq!(fault_line(&px, &con, 9).0, "    (IPA=0 likely not a stage-2 fault)");
    hv_fault_screen(&con, &mut px, &font(), 0x16u64 << 26, 0, 0, 0x10_0000);
    assert_eq!(fault_line(&px, &con, 5).0, "ELR_EL2  : 0x0000000000000000  <- faulting PC");
    assert_eq!(fault_line(&px, &con, 8).0, "-".repeat(48));
    hv_fault_screen(&con, &mut px, &font(), 0, 0, 0, 0x7F0);
    assert!(fault_line(&px, &con, 8).0.starts_with("    below kernel (0x80000)"));
    hv_fault_screen(&con, &mut px, &font(), 0, 0, 0, 0x3B4000);
    assert!(fault_line(&px, &con, 8).0.starts_with("    EL2 page-table pool"));
}

#[test]
fn no_framebuffer_no_report() {
    let con = hv_console::init(0, 0, 0, 0);
    let mut px = vec![3u32; 4];
    assert!(!hv_fault_screen(&con, &mut px, &font(), 1, 2, 3, 4));
    assert_eq!(px, vec![3u32; 4]);
}
