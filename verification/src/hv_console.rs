//! The fault console: a full-screen report of an exception that the guest caused.
//!
//! It is drawn on the framebuffer that the GPU handed out before the guest was
//! started, over whatever is there.
use vstd::prelude::*;
use crate::glyph::{Font, Geometry, drawn, draw_char, fill, char_pixel, in_cell, lemma_position, lemma_area};
use crate::text::{utf8, hex, push_str, push_hex};
use crate::framebuffer::{Fb, get_info};
use crate::linux_vm::{PT_POOL_WORDS, block_touched, identity_tables, protect_framebuffer, protected_tables, stage2_regs, translate, lemma_protected_map};

verus! {

/// Each bit of a character is a square of this many pixels.
pub const SCALE: u32 = 3;
/// The width and the height of a character cell.
pub const CELL: u32 = 24;
/// Dark red background.
pub const C_BG: u32 = 0xFF1A0000;
/// Light grey: general text.
pub const C_FG: u32 = 0xFFE0E0E0;
/// Bright red: the title.
pub const C_TITLE: u32 = 0xFFFF4040;
/// Green: register values.
pub const C_REG: u32 = 0xFF40FF90;
/// Orange: decoded fields.
pub const C_FIELD: u32 = 0xFFFFAA00;
/// Yellow: the last lines.
pub const C_WARN: u32 = 0xFFFFFF44;

/// The framebuffer that the report goes to; none where the address is 0.
#[derive(Clone, Copy, PartialEq, Eq, Structural, Debug)]
pub struct HvConsole {
    pub base: usize,
    pub pitch: u32,
    pub width: u32,
    pub height: u32,
}

impl HvConsole {
    pub open spec fn geometry(self) -> Geometry {
        Geometry { width: self.width, height: self.height, pitch: self.pitch }
    }
}

/// Remembers the framebuffer, so that a fault finds it.
pub fn init(base: usize, pitch: u32, width: u32, height: u32) -> (con: HvConsole)
    ensures
        con == (HvConsole { base, pitch, width, height }),
{
    HvConsole { base, pitch, width, height }
}

/// The physical address of the framebuffer.
pub fn base_addr(con: &HvConsole) -> (addr: usize)
    ensures
        addr == con.base,
{
    con.base
}

/// Remembers the framebuffer that was allocated, if there is one.
pub fn mirror(fb: &Option<Fb>) -> (con: HvConsole)
    ensures
        con == (match *fb {
            Some(fb) => HvConsole {
                base: fb.base as usize,
                pitch: fb.pitch,
                width: fb.width,
                height: fb.height,
            },
            None => HvConsole { base: 0, pitch: 0, width: 0, height: 0 },
        }),
{
    let (base, pitch, width, height): (u32, u32, u32, u32) = get_info(fb);
    init(base as usize, pitch, width, height)
}

/// Makes the remembered framebuffer read-only for the guest, in the page tables
/// `pool`. The result says whether TLB entries have to be flushed.
pub fn protect(con: &HvConsole, pool: &mut [u64]) -> (flush: bool)
    requires
        old(pool)@.len() == PT_POOL_WORDS,
        con.base + con.pitch * con.height + 0x20_0000 <= usize::MAX,
    ensures
        flush == (con.base != 0 && con.pitch * con.height != 0),
        final(pool)@ == (if flush {
            protected_tables(old(pool)@, con.base as int, con.pitch * con.height)
        } else {
            old(pool)@
        }),
{
    assert(con.pitch * con.height >= 0) by (nonlinear_arith);
    protect_framebuffer(pool, base_addr(con), con.pitch as usize * con.height as usize)
}

// ── Syndromes ──────────────────────────────────────────────────────────────

/// The name of an exception class.
pub open spec fn ec_name(ec: u8) -> &'static str {
    match ec {
        0x00 => "Unknown",
        0x01 => "WFI/WFE trap",
        0x07 => "SVE/SIMD/FP access trap",
        0x0E => "Illegal execution state",
        0x11 => "SVC from AArch32",
        0x12 => "HVC from AArch32",
        0x13 => "SMC from AArch32",
        0x15 => "SVC from AArch64",
        0x16 => "HVC from AArch64",
        0x17 => "SMC from AArch64",
        0x18 => "MSR/MRS/System instruction trap",
        0x20 => "Instruction abort (lower EL)",
        0x21 => "Instruction abort (same EL)",
        0x22 => "PC alignment fault",
        0x24 => "Data abort (lower EL)",
        0x25 => "Data abort (same EL)",
        0x26 => "SP alignment fault",
        0x2C => "FP exception (AArch64)",
        0x2F => "SError interrupt",
        0x30 => "Breakpoint (lower EL)",
        0x31 => "Breakpoint (same EL)",
        0x32 => "Software step (lower EL)",
        0x33 => "Software step (same EL)",
        0x34 => "Watchpoint (lower EL)",
        0x35 => "Watchpoint (same EL)",
        0x3C => "BRK instruction",
        _ => "Reserved",
    }
}

/// Names an exception class.
pub fn decode_ec(ec: u8) -> (name: &'static str)
    ensures
        name@ == ec_name(ec)@,
{
    match ec {
        0x00 => "Unknown",
        0x01 => "WFI/WFE trap",
        0x07 => "SVE/SIMD/FP access trap",
        0x0E => "Illegal execution state",
        0x11 => "SVC from AArch32",
        0x12 => "HVC from AArch32",
        0x13 => "SMC from AArch32",
        0x15 => "SVC from AArch64",
        0x16 => "HVC from AArch64",
        0x17 => "SMC from AArch64",
        0x18 => "MSR/MRS/System instruction trap",
        0x20 => "Instruction abort (lower EL)",
        0x21 => "Instruction abort (same EL)",
        0x22 => "PC alignment fault",
        0x24 => "Data abort (lower EL)",
        0x25 => "Data abort (same EL)",
        0x26 => "SP alignment fault",
        0x2C => "FP exception (AArch64)",
        0x2F => "SError interrupt",
        0x30 => "Breakpoint (lower EL)",
        0x31 => "Breakpoint (same EL)",
        0x32 => "Software step (lower EL)",
        0x33 => "Software step (same EL)",
        0x34 => "Watchpoint (lower EL)",
        0x35 => "Watchpoint (same EL)",
        0x3C => "BRK instruction",
        _ => "Reserved",
    }
}

/// The name of a fault status code.
pub open spec fn fsc_name(fsc: u8) -> &'static str {
    match fsc {
        0x00 => "Address size fault L0",
        0x01 => "Address size fault L1",
        0x02 => "Address size fault L2",
        0x03 => "Address size fault L3",
        0x04 => "Translation fault L0",
        0x05 => "Translation fault L1",
        0x06 => "Translation fault L2",
        0x07 => "Translation fault L3",
        0x08 => "Access flag fault L0",
        0x09 => "Access flag fault L1",
        0x0A => "Access flag fault L2",
        0x0B => "Access flag fault L3",
        0x0C => "Permission fault L0",
        0x0D => "Permission fault L1",
        0x0E => "Permission fault L2",
        0x0F => "Permission fault L3",
        0x10 => "Synchronous external abort",
        0x14 => "Sync ext abort on table walk L0",
        0x15 => "Sync ext abort on table walk L1",
        0x16 => "Sync ext abort on table walk L2",
        0x17 => "Sync ext abort on table walk L3",
        0x21 => "Alignment fault",
        0x30 => "TLB conflict abort",
        _ => "Reserved FSC",
    }
}

/// Names a fault status code.
pub fn decode_fsc(fsc: u8) -> (name: &'static str)
    ensures
        name@ == fsc_name(fsc)@,
{
    match fsc {
        0x00 => "Address size fault L0",
        0x01 => "Address size fault L1",
        0x02 => "Address size fault L2",
        0x03 => "Address size fault L3",
        0x04 => "Translation fault L0",
        0x05 => "Translation fault L1",
        0x06 => "Translation fault L2",
        0x07 => "Translation fault L3",
        0x08 => "Access flag fault L0",
        0x09 => "Access flag fault L1",
        0x0A => "Access flag fault L2",
        0x0B => "Access flag fault L3",
        0x0C => "Permission fault L0",
        0x0D => "Permission fault L1",
        0x0E => "Permission fault L2",
        0x0F => "Permission fault L3",
        0x10 => "Synchronous external abort",
        0x14 => "Sync ext abort on table walk L0",
        0x15 => "Sync ext abort on table walk L1",
        0x16 => "Sync ext abort on table walk L2",
        0x17 => "Sync ext abort on table walk L3",
        0x21 => "Alignment fault",
        0x30 => "TLB conflict abort",
        _ => "Reserved FSC",
    }
}

// ── The report ─────────────────────────────────────────────────────────────

/// A piece of a line.
pub struct Span {
    pub text: Vec<u8>,
    pub color: u32,
    /// Goes on in the next line at the right edge; numbers do not.
    pub wraps: bool,
}

pub struct SpanView {
    pub text: Seq<u8>,
    pub color: u32,
    pub wraps: bool,
}

impl View for Span {
    type V = SpanView;

    open spec fn view(&self) -> SpanView {
        SpanView { text: self.text@, color: self.color, wraps: self.wraps }
    }
}

/// A line of the report.
pub struct Line {
    pub indent: u32,
    pub spans: Vec<Span>,
}

pub struct LineView {
    pub indent: u32,
    pub spans: Seq<SpanView>,
}

pub open spec fn span_views(spans: Seq<Span>) -> Seq<SpanView> {
    spans.map_values(|s: Span| s@)
}

impl View for Line {
    type V = LineView;

    open spec fn view(&self) -> LineView {
        LineView { indent: self.indent, spans: span_views(self.spans@) }
    }
}

pub open spec fn line_views(lines: Seq<Line>) -> Seq<LineView> {
    lines.map_values(|l: Line| l@)
}

/// Plain text.
pub open spec fn words(s: &str, color: u32) -> SpanView {
    SpanView { text: utf8(s), color, wraps: true }
}

/// The last `digits` hexadecimal digits of a number.
pub open spec fn number(v: u64, digits: nat, color: u32) -> SpanView {
    SpanView { text: hex(v as nat, digits, true), color, wraps: false }
}

/// The exception class of a syndrome.
pub open spec fn ec_of(esr: u64) -> u8 {
    (esr / 0x400_0000 % 64) as u8
}

/// The instruction specific part of a syndrome.
pub open spec fn iss_of(esr: u64) -> u64 {
    esr % 0x100_0000
}

/// The intermediate physical address of the faulting page.
pub open spec fn ipa_of(hpfar: u64) -> u64 {
    ((hpfar / 16) * 4096 % 0x1_0000_0000_0000_0000) as u64
}

/// What the address suggests.
pub open spec fn ipa_hint(ipa: u64) -> Option<&'static str> {
    if ipa == 0 {
        Some("  (IPA=0 likely not a stage-2 fault)")
    } else if ipa < 0x8_0000 {
        Some("  below kernel (0x80000) — null ptr / early boot")
    } else if ipa >= 0xFC00_0000 {
        Some("  device region — bad peripheral access")
    } else if 0x3B40_0000 <= ipa < 0x3C00_0000 {
        Some("  EL2 page-table pool — stage-2 corruption!")
    } else {
        None
    }
}

/// The lines on the syndrome.
pub open spec fn syndrome_lines(esr: u64) -> Seq<LineView> {
    seq![
        LineView { indent: 1, spans: seq![words("  EL2 HYPERVISOR FAULT  ", C_TITLE)] },
        LineView {
            indent: 0,
            spans: seq![words("================================================", C_FG)],
        },
        LineView {
            indent: 0,
            spans: seq![words("ESR_EL2  : 0x", C_FG), number(esr, 16, C_REG)],
        },
        LineView {
            indent: 2,
            spans: seq![
                words("EC  = 0x", C_FG),
                number(ec_of(esr) as u64, 2, C_FIELD),
                words("  ", C_FG),
                words(ec_name(ec_of(esr)), C_FIELD),
            ],
        },
        LineView {
            indent: 2,
            spans: seq![words("ISS = 0x", C_FG), number(iss_of(esr), 6, C_FIELD)],
        },
    ]
}

/// The line on the fault status, for data and instruction aborts.
pub open spec fn status_lines(esr: u64) -> Seq<LineView> {
    let ec = ec_of(esr);
    let fsc = (iss_of(esr) % 64) as u8;
    if ec == 0x24 || ec == 0x25 {
        seq![
            LineView {
                indent: 4,
                spans: seq![
                    words("DFSC=0x", C_FG),
                    number(fsc as u64, 2, C_FIELD),
                    words("  ", C_FG),
                    words(fsc_name(fsc), C_FIELD),
                    words(
                        if iss_of(esr) / 64 % 2 != 0 {
                            "  WRITE"
                        } else {
                            "  READ"
                        },
                        C_FIELD,
                    ),
                ],
            },
        ]
    } else if ec == 0x20 || ec == 0x21 {
        seq![
            LineView {
                indent: 4,
                spans: seq![
                    words("IFSC=0x", C_FG),
                    number(fsc as u64, 2, C_FIELD),
                    words("  ", C_FG),
                    words(fsc_name(fsc), C_FIELD),
                ],
            },
        ]
    } else {
        Seq::empty()
    }
}

/// The lines on the addresses.
pub open spec fn address_lines(elr: u64, far: u64, hpfar: u64) -> Seq<LineView> {
    seq![
        LineView {
            indent: 0,
            spans: seq![
                words("ELR_EL2  : 0x", C_FG),
                number(elr, 16, C_REG),
                words("  <- faulting PC", C_FG),
            ],
        },
        LineView {
            indent: 0,
            spans: seq![
                words("FAR_EL2  : 0x", C_FG),
                number(far, 16, C_REG),
                words("  <- virtual address", C_FG),
            ],
        },
        LineView {
            indent: 0,
            spans: seq![
                words("HPFAR_EL2: 0x", C_FG),
                number(hpfar, 16, C_REG),
                words("  IPA=0x", C_FG),
                number(ipa_of(hpfar), 16, C_REG),
            ],
        },
    ]
}

pub open spec fn hint_lines(hpfar: u64) -> Seq<LineView> {
    match ipa_hint(ipa_of(hpfar)) {
        Some(hint) => seq![LineView { indent: 2, spans: seq![words(hint, C_FIELD)] }],
        None => Seq::empty(),
    }
}

pub open spec fn footer_lines() -> Seq<LineView> {
    seq![
        LineView {
            indent: 0,
            spans: seq![words("------------------------------------------------", C_FG)],
        },
        LineView { indent: 0, spans: seq![words("Linux crashed at EL1.  CPU halted.", C_WARN)] },
        LineView { indent: 0, spans: seq![words("Power-cycle or reset to reboot.", C_WARN)] },
    ]
}

/// The whole report.
pub open spec fn report(esr: u64, elr: u64, far: u64, hpfar: u64) -> Seq<LineView> {
    syndrome_lines(esr) + status_lines(esr) + address_lines(elr, far, hpfar) + hint_lines(hpfar)
        + footer_lines()
}

fn get_words(s: &str, color: u32) -> (span: Span)
    ensures
        span@ == words(s, color),
{
    let mut text: Vec<u8> = Vec::new();
    push_str(&mut text, s);
    assert(text@ =~= utf8(s));
    Span { text, color, wraps: true }
}

fn get_number(v: u64, digits: u32, color: u32) -> (span: Span)
    ensures
        span@ == number(v, digits as nat, color),
{
    let mut text: Vec<u8> = Vec::new();
    push_hex(&mut text, v, digits, true);
    assert(text@ =~= hex(v as nat, digits as nat, true));
    Span { text, color, wraps: false }
}

fn push_line(lines: &mut Vec<Line>, indent: u32, spans: Vec<Span>)
    ensures
        line_views(final(lines)@) == line_views(old(lines)@).push(
            LineView { indent, spans: span_views(spans@) },
        ),
{
    let ghost before = lines@;
    let line = Line { indent, spans };
    lines.push(line);
    assert(line_views(lines@) =~= line_views(before).push(line@));
}

fn push_syndrome_lines(lines: &mut Vec<Line>, esr: u64)
    ensures
        line_views(final(lines)@) == line_views(old(lines)@) + syndrome_lines(esr),
{
    let ghost before = line_views(lines@);
    let ec: u8 = (esr / 0x400_0000 % 64) as u8;
    let iss: u64 = esr % 0x100_0000;
    let spans: Vec<Span> = vec![get_words("  EL2 HYPERVISOR FAULT  ", C_TITLE)];
    assert(span_views(spans@) =~= syndrome_lines(esr)[0].spans);
    push_line(lines, 1, spans);
    let spans: Vec<Span> = vec![get_words("================================================", C_FG)];
    assert(span_views(spans@) =~= syndrome_lines(esr)[1].spans);
    push_line(lines, 0, spans);
    let spans: Vec<Span> = vec![get_words("ESR_EL2  : 0x", C_FG), get_number(esr, 16, C_REG)];
    assert(span_views(spans@) =~= syndrome_lines(esr)[2].spans);
    push_line(lines, 0, spans);
    let spans: Vec<Span> = vec![
        get_words("EC  = 0x", C_FG),
        get_number(ec as u64, 2, C_FIELD),
        get_words("  ", C_FG),
        get_words(decode_ec(ec), C_FIELD),
    ];
    assert(span_views(spans@) =~= syndrome_lines(esr)[3].spans);
    push_line(lines, 2, spans);
    let spans: Vec<Span> = vec![get_words("ISS = 0x", C_FG), get_number(iss, 6, C_FIELD)];
    assert(span_views(spans@) =~= syndrome_lines(esr)[4].spans);
    push_line(lines, 2, spans);
    assert(line_views(lines@) =~= before + syndrome_lines(esr));
}

fn push_status_lines(lines: &mut Vec<Line>, esr: u64)
    ensures
        line_views(final(lines)@) == line_views(old(lines)@) + status_lines(esr),
{
    let ghost before = line_views(lines@);
    let ec: u8 = (esr / 0x400_0000 % 64) as u8;
    let iss: u64 = esr % 0x100_0000;
    let fsc: u8 = (iss % 64) as u8;
    if ec == 0x24 || ec == 0x25 {
        let access: &str = if iss / 64 % 2 != 0 {
            "  WRITE"
        } else {
            "  READ"
        };
        let spans: Vec<Span> = vec![
            get_words("DFSC=0x", C_FG),
            get_number(fsc as u64, 2, C_FIELD),
            get_words("  ", C_FG),
            get_words(decode_fsc(fsc), C_FIELD),
            get_words(access, C_FIELD),
        ];
        assert(span_views(spans@) =~= status_lines(esr)[0].spans);
        push_line(lines, 4, spans);
    } else if ec == 0x20 || ec == 0x21 {
        let spans: Vec<Span> = vec![
            get_words("IFSC=0x", C_FG),
            get_number(fsc as u64, 2, C_FIELD),
            get_words("  ", C_FG),
            get_words(decode_fsc(fsc), C_FIELD),
        ];
        assert(span_views(spans@) =~= status_lines(esr)[0].spans);
        push_line(lines, 4, spans);
    }
    assert(line_views(lines@) =~= before + status_lines(esr));
}

fn push_address_lines(lines: &mut Vec<Line>, elr: u64, far: u64, hpfar: u64)
    ensures
        line_views(final(lines)@) == line_views(old(lines)@) + address_lines(elr, far, hpfar),
{
    let ghost before = line_views(lines@);
    let ghost all = address_lines(elr, far, hpfar);
    let ipa: u64 = (hpfar / 16).wrapping_mul(4096);
    let spans: Vec<Span> = vec![
        get_words("ELR_EL2  : 0x", C_FG),
        get_number(elr, 16, C_REG),
        get_words("  <- faulting PC", C_FG),
    ];
    assert(span_views(spans@) =~= all[0].spans);
    push_line(lines, 0, spans);
    let spans: Vec<Span> = vec![
        get_words("FAR_EL2  : 0x", C_FG),
        get_number(far, 16, C_REG),
        get_words("  <- virtual address", C_FG),
    ];
    assert(span_views(spans@) =~= all[1].spans);
    push_line(lines, 0, spans);
    let spans: Vec<Span> = vec![
        get_words("HPFAR_EL2: 0x", C_FG),
        get_number(hpfar, 16, C_REG),
        get_words("  IPA=0x", C_FG),
        get_number(ipa, 16, C_REG),
    ];
    assert(ipa == ipa_of(hpfar));
    assert(span_views(spans@) =~= all[2].spans);
    push_line(lines, 0, spans);
    assert(line_views(lines@) =~= before + all);
}

fn push_hint_lines(lines: &mut Vec<Line>, hpfar: u64)
    ensures
        line_views(final(lines)@) == line_views(old(lines)@) + hint_lines(hpfar),
{
    let ghost before = line_views(lines@);
    let ipa: u64 = (hpfar / 16).wrapping_mul(4096);
    assert(ipa == ipa_of(hpfar));
    let hint: Option<&str> = if ipa == 0 {
        Some("  (IPA=0 likely not a stage-2 fault)")
    } else if ipa < 0x8_0000 {
        Some("  below kernel (0x80000) — null ptr / early boot")
    } else if ipa >= 0xFC00_0000 {
        Some("  device region — bad peripheral access")
    } else if ipa >= 0x3B40_0000 && ipa < 0x3C00_0000 {
        Some("  EL2 page-table pool — stage-2 corruption!")
    } else {
        None
    };
    if let Some(hint) = hint {
        let spans: Vec<Span> = vec![get_words(hint, C_FIELD)];
        assert(span_views(spans@) =~= hint_lines(hpfar)[0].spans);
        push_line(lines, 2, spans);
    }
    assert(line_views(lines@) =~= before + hint_lines(hpfar));
}

fn push_footer_lines(lines: &mut Vec<Line>)
    ensures
        line_views(final(lines)@) == line_views(old(lines)@) + footer_lines(),
{
    let ghost before = line_views(lines@);
    let spans: Vec<Span> = vec![get_words("------------------------------------------------", C_FG)];
    assert(span_views(spans@) =~= footer_lines()[0].spans);
    push_line(lines, 0, spans);
    let spans: Vec<Span> = vec![get_words("Linux crashed at EL1.  CPU halted.", C_WARN)];
    assert(span_views(spans@) =~= footer_lines()[1].spans);
    push_line(lines, 0, spans);
    let spans: Vec<Span> = vec![get_words("Power-cycle or reset to reboot.", C_WARN)];
    assert(span_views(spans@) =~= footer_lines()[2].spans);
    push_line(lines, 0, spans);
    assert(line_views(lines@) =~= before + footer_lines());
}

fn get_report(esr: u64, elr: u64, far: u64, hpfar: u64) -> (lines: Vec<Line>)
    ensures
        line_views(lines@) == report(esr, elr, far, hpfar),
{
    let mut lines: Vec<Line> = Vec::new();
    assert(line_views(lines@) =~= Seq::empty());
    push_syndrome_lines(&mut lines, esr);
    push_status_lines(&mut lines, esr);
    push_address_lines(&mut lines, elr, far, hpfar);
    push_hint_lines(&mut lines, hpfar);
    push_footer_lines(&mut lines);
    assert(line_views(lines@) =~= report(esr, elr, far, hpfar));
    lines
}

// ── Drawing ────────────────────────────────────────────────────────────────

/// The pixels and the cell where the next character goes.
pub struct Pen {
    pub px: Seq<u32>,
    pub col: int,
    pub row: int,
}

pub open spec fn max_col(g: Geometry) -> int {
    g.width as int / 24
}

pub open spec fn max_row(g: Geometry) -> int {
    g.height as int / 24
}

/// Draws a character and moves on.
pub open spec fn put_char(pen: Pen, g: Geometry, font: Font, c: u8, color: u32) -> Pen {
    Pen {
        px: drawn(pen.px, g, font, c, pen.col, pen.row, SCALE as int, color, C_BG),
        col: pen.col + 1,
        row: pen.row,
    }
}

/// Moves to the next line at the right edge.
pub open spec fn wrapped(pen: Pen, g: Geometry) -> Pen {
    if pen.col >= max_col(g) {
        Pen { px: pen.px, col: 0, row: pen.row + 1 }
    } else {
        pen
    }
}

/// Draws text, going on in the next line at the right edge. What is below the display
/// is dropped.
pub open spec fn put_text(pen: Pen, g: Geometry, font: Font, text: Seq<u8>, color: u32) -> Pen
    decreases text.len(),
{
    if text.len() == 0 {
        pen
    } else {
        let at = wrapped(pen, g);
        if at.row >= max_row(g) {
            at
        } else {
            put_text(put_char(at, g, font, text[0], color), g, font, text.drop_first(), color)
        }
    }
}

/// Draws the digits of a number in one line.
pub open spec fn put_digits(pen: Pen, g: Geometry, font: Font, text: Seq<u8>, color: u32) -> Pen
    decreases text.len(),
{
    if text.len() == 0 {
        pen
    } else {
        put_digits(put_char(pen, g, font, text[0], color), g, font, text.drop_first(), color)
    }
}

pub open spec fn put_span(pen: Pen, g: Geometry, font: Font, span: SpanView) -> Pen {
    if span.wraps {
        put_text(pen, g, font, span.text, span.color)
    } else {
        put_digits(pen, g, font, span.text, span.color)
    }
}

pub open spec fn put_spans(pen: Pen, g: Geometry, font: Font, spans: Seq<SpanView>) -> Pen
    decreases spans.len(),
{
    if spans.len() == 0 {
        pen
    } else {
        put_spans(put_span(pen, g, font, spans[0]), g, font, spans.drop_first())
    }
}

/// Draws lines, each below the last one.
pub open spec fn put_lines(pen: Pen, g: Geometry, font: Font, lines: Seq<LineView>) -> Pen
    decreases lines.len(),
{
    if lines.len() == 0 {
        pen
    } else {
        let at = Pen { px: pen.px, col: lines[0].indent as int, row: pen.row + 1 };
        put_lines(put_spans(at, g, font, lines[0].spans), g, font, lines.drop_first())
    }
}

/// A display that shows nothing but the lines, from the top on.
pub open spec fn shown(n: nat, g: Geometry, font: Font, lines: Seq<LineView>) -> Seq<u32> {
    let blank = Pen { px: Seq::new(n, |i: int| C_BG), col: 0, row: -1 };
    put_lines(blank, g, font, lines).px
}

fn put_str(
    px: &mut [u32],
    g: &Geometry,
    font: &Font,
    text: &Vec<u8>,
    col: &mut u32,
    row: &mut u32,
    color: u32,
)
    requires
        g.wf(),
        old(px)@.len() == g.area(),
        *old(row) < u32::MAX,
    ensures
        final(px)@.len() == old(px)@.len(),
        (Pen { px: final(px)@, col: *final(col) as int, row: *final(row) as int }) == put_text(
            Pen { px: old(px)@, col: *old(col) as int, row: *old(row) as int },
            *g,
            *font,
            text@,
            color,
        ),
        *final(row) <= *old(row) + 1 || *final(row) <= max_row(*g),
        *final(col) <= *old(col) || *final(col) <= max_col(*g) + 1,
{
    let ghost start = Pen { px: px@, col: *col as int, row: *row as int };
    let max_c: u32 = g.width / CELL;
    let max_r: u32 = g.height / CELL;
    let n: usize = text.len();
    let mut i: usize = 0;
    assert(text@.skip(0) =~= text@);
    while i < n
        invariant
            n == text@.len(),
            i <= n,
            g.wf(),
            max_c == max_col(*g),
            max_r == max_row(*g),
            px@.len() == g.area(),
            px@.len() == old(px)@.len(),
            *old(row) < u32::MAX,
            start == (Pen { px: old(px)@, col: *old(col) as int, row: *old(row) as int }),
            put_text(
                Pen { px: px@, col: *col as int, row: *row as int },
                *g,
                *font,
                text@.skip(i as int),
                color,
            ) == put_text(start, *g, *font, text@, color),
            *row == *old(row) || *row < max_r,
            *col <= *old(col) || *col <= max_c + 1,
        decreases n - i,
    {
        assert(text@.skip(i as int).drop_first() =~= text@.skip(i + 1));
        if *col >= max_c {
            *col = 0;
            *row = *row + 1;
        }
        if *row >= max_r {
            return;
        }
        draw_char(px, g, font, text[i], *col, *row, SCALE, color, C_BG);
        *col = *col + 1;
        i = i + 1;
    }
}

fn put_hex(
    px: &mut [u32],
    g: &Geometry,
    font: &Font,
    text: &Vec<u8>,
    col: &mut u32,
    row: u32,
    color: u32,
)
    requires
        g.wf(),
        old(px)@.len() == g.area(),
        *old(col) + text@.len() <= u32::MAX,
    ensures
        final(px)@.len() == old(px)@.len(),
        (Pen { px: final(px)@, col: *final(col) as int, row: row as int }) == put_digits(
            Pen { px: old(px)@, col: *old(col) as int, row: row as int },
            *g,
            *font,
            text@,
            color,
        ),
        *final(col) == *old(col) + text@.len(),
{
    let ghost start = Pen { px: px@, col: *col as int, row: row as int };
    let n: usize = text.len();
    let mut i: usize = 0;
    assert(text@.skip(0) =~= text@);
    while i < n
        invariant
            n == text@.len(),
            i <= n,
            g.wf(),
            px@.len() == g.area(),
            px@.len() == old(px)@.len(),
            *col == *old(col) + i,
            *old(col) + n <= u32::MAX,
            start == (Pen { px: old(px)@, col: *old(col) as int, row: row as int }),
            put_digits(
                Pen { px: px@, col: *col as int, row: row as int },
                *g,
                *font,
                text@.skip(i as int),
                color,
            ) == put_digits(start, *g, *font, text@, color),
        decreases n - i,
    {
        assert(text@.skip(i as int).drop_first() =~= text@.skip(i + 1));
        draw_char(px, g, font, text[i], *col, row, SCALE, color, C_BG);
        *col = *col + 1;
        i = i + 1;
    }
}

/// The lines are few and their pieces short, so that cell numbers stay small.
pub open spec fn modest(lines: Seq<LineView>) -> bool {
    &&& lines.len() <= 64
    &&& forall|i: int| 0 <= i < lines.len() ==> modest_line(#[trigger] lines[i])
}

pub open spec fn modest_line(line: LineView) -> bool {
    &&& line.indent <= 64
    &&& line.spans.len() <= 8
    &&& forall|j: int|
        0 <= j < line.spans.len() ==> (#[trigger] line.spans[j]).wraps || line.spans[j].text.len()
            <= 16
}

fn put_line(
    px: &mut [u32],
    g: &Geometry,
    font: &Font,
    line: &Line,
    row: &mut u32,
)
    requires
        g.wf(),
        old(px)@.len() == g.area(),
        modest_line(line@),
        *old(row) <= max_row(*g) + 1000,
    ensures
        final(px)@.len() == old(px)@.len(),
        ({
            let pen = put_spans(
                Pen { px: old(px)@, col: line.indent as int, row: *old(row) as int },
                *g,
                *font,
                line@.spans,
            );
            pen.px == final(px)@ && pen.row == *final(row)
        }),
        *final(row) <= *old(row) + 8 || *final(row) <= max_row(*g) + 8,
{
    let ghost views = line@.spans;
    let ghost start = Pen { px: px@, col: line.indent as int, row: *row as int };
    let mut col: u32 = line.indent;
    let n: usize = line.spans.len();
    let mut i: usize = 0;
    assert(views.skip(0) =~= views);
    while i < n
        invariant
            n == line.spans@.len(),
            n <= 8,
            i <= n,
            views == line@.spans,
            modest_line(line@),
            g.wf(),
            px@.len() == g.area(),
            px@.len() == old(px)@.len(),
            *old(row) <= max_row(*g) + 1000,
            *row <= *old(row) + i || *row <= max_row(*g) + i,
            col <= max_col(*g) + 65 + 16 * i,
            start == (Pen { px: old(px)@, col: line.indent as int, row: *old(row) as int }),
            put_spans(
                Pen { px: px@, col: col as int, row: *row as int },
                *g,
                *font,
                views.skip(i as int),
            ) == put_spans(start, *g, *font, views),
        decreases n - i,
    {
        assert(views.skip(i as int).drop_first() =~= views.skip(i + 1));
        assert(views[i as int] == line.spans@[i as int]@);
        let span: &Span = &line.spans[i];
        if span.wraps {
            put_str(px, g, font, &span.text, &mut col, row, span.color);
        } else {
            put_hex(px, g, font, &span.text, &mut col, *row, span.color);
        }
        i = i + 1;
    }
}

fn draw_lines(px: &mut [u32], g: &Geometry, font: &Font, lines: &Vec<Line>)
    requires
        g.wf(),
        old(px)@.len() == g.area(),
        modest(line_views(lines@)),
    ensures
        final(px)@ == shown(old(px)@.len(), *g, *font, line_views(lines@)),
{
    fill(px, C_BG);
    let ghost views = line_views(lines@);
    let ghost start = Pen { px: px@, col: 0, row: -1 };
    assert(px@ =~= Seq::new(old(px)@.len(), |i: int| C_BG));
    let n: usize = lines.len();
    let mut i: usize = 0;
    let mut next: u32 = 0;
    let ghost mut col: int = 0;
    assert(views.skip(0) =~= views);
    while i < n
        invariant
            n == lines@.len(),
            n <= 64,
            i <= n,
            views == line_views(lines@),
            modest(views),
            g.wf(),
            px@.len() == g.area(),
            next <= max_row(*g) + 9 * i,
            put_lines(
                Pen { px: px@, col, row: next - 1 },
                *g,
                *font,
                views.skip(i as int),
            ) == put_lines(start, *g, *font, views),
        decreases n - i,
    {
        assert(views.skip(i as int).drop_first() =~= views.skip(i + 1));
        assert(views[i as int] == lines@[i as int]@);
        let ghost at = Pen { px: px@, col: views[i as int].indent as int, row: next as int };
        let mut row: u32 = next;
        put_line(px, g, font, &lines[i], &mut row);
        proof {
            col = put_spans(at, *g, *font, views[i as int].spans).col;
        }
        next = row + 1;
        i = i + 1;
    }
}

proof fn lemma_hex_len(n: nat, width: nat)
    ensures
        hex(n, width, true).len() == width,
    decreases width,
{
    if width > 0 {
        lemma_hex_len(n / 16, (width - 1) as nat);
    }
}

proof fn lemma_number(v: u64, digits: nat, color: u32)
    requires
        digits <= 16,
    ensures
        number(v, digits, color).text.len() <= 16,
{
    lemma_hex_len(v as nat, digits);
}

proof fn lemma_modest_syndrome(esr: u64)
    ensures
        modest(syndrome_lines(esr)),
{
    lemma_number(esr, 16, C_REG);
    lemma_number(ec_of(esr) as u64, 2, C_FIELD);
    lemma_number(iss_of(esr), 6, C_FIELD);
    let a = syndrome_lines(esr);
    assert(modest_line(a[0]));
    assert(modest_line(a[1]));
    assert(modest_line(a[2]));
    assert(modest_line(a[3]));
    assert(modest_line(a[4]));
}

proof fn lemma_modest_status(esr: u64)
    ensures
        modest(status_lines(esr)),
        status_lines(esr).len() <= 1,
{
    lemma_number(((iss_of(esr) % 64) as u8) as u64, 2, C_FIELD);
}

proof fn lemma_modest_address(elr: u64, far: u64, hpfar: u64)
    ensures
        modest(address_lines(elr, far, hpfar)),
{
    lemma_number(elr, 16, C_REG);
    lemma_number(far, 16, C_REG);
    lemma_number(hpfar, 16, C_REG);
    lemma_number(ipa_of(hpfar), 16, C_REG);
    let a = address_lines(elr, far, hpfar);
    assert(modest_line(a[0]));
    assert(modest_line(a[1]));
    assert(modest_line(a[2]));
}

proof fn lemma_modest_footer()
    ensures
        modest(footer_lines()),
{
    let a = footer_lines();
    assert(modest_line(a[0]));
    assert(modest_line(a[1]));
    assert(modest_line(a[2]));
}

proof fn lemma_modest_both(a: Seq<LineView>, b: Seq<LineView>)
    requires
        modest(a),
        modest(b),
        a.len() + b.len() <= 64,
    ensures
        modest(a + b),
{
}

proof fn lemma_report_is_modest(esr: u64, elr: u64, far: u64, hpfar: u64)
    ensures
        modest(report(esr, elr, far, hpfar)),
{
    let a = syndrome_lines(esr);
    let b = status_lines(esr);
    let c = address_lines(elr, far, hpfar);
    let d = hint_lines(hpfar);
    lemma_modest_syndrome(esr);
    lemma_modest_status(esr);
    lemma_modest_address(elr, far, hpfar);
    lemma_modest_footer();
    assert(modest(d) && d.len() <= 1);
    lemma_modest_both(a, b);
    lemma_modest_both(a + b, c);
    lemma_modest_both(a + b + c, d);
    lemma_modest_both(a + b + c + d, footer_lines());
}

/// Draws the report of a fault over the whole display: the syndrome, the faulting
/// program counter, the virtual address and the intermediate physical address.
/// Nothing is drawn where no framebuffer is known. The result says whether there was
/// one.
pub fn hv_fault_screen(
    con: &HvConsole,
    px: &mut [u32],
    font: &Font,
    esr: u64,
    elr: u64,
    far: u64,
    hpfar: u64,
) -> (drew: bool)
    requires
        con.base != 0 ==> con.geometry().wf() && old(px)@.len() == con.geometry().area(),
    ensures
        drew == (con.base != 0),
        final(px)@ == (if drew {
            shown(old(px)@.len(), con.geometry(), *font, report(esr, elr, far, hpfar))
        } else {
            old(px)@
        }),
{
    if con.base == 0 {
        return false;
    }
    let g = Geometry { width: con.width, height: con.height, pitch: con.pitch };
    let lines: Vec<Line> = get_report(esr, elr, far, hpfar);
    proof {
        lemma_report_is_modest(esr, elr, far, hpfar);
    }
    draw_lines(px, &g, font, &lines);
    true
}

/// Where the fields lie in their registers.
pub proof fn lemma_syndrome_fields(esr: u64, hpfar: u64)
    ensures
        ec_of(esr) == (esr >> 26) & 0x3F,
        iss_of(esr) == esr & 0x00FF_FFFF,
        iss_of(esr) % 64 == iss_of(esr) & 0x3F,
        iss_of(esr) / 64 % 2 == (iss_of(esr) >> 6) & 1,
        ipa_of(hpfar) == (hpfar >> 4) << 12,
{
    let iss = iss_of(esr);
    assert(esr / 0x400_0000 % 64 == (esr >> 26) & 0x3F && esr % 0x100_0000 == esr & 0x00FF_FFFF
        && iss % 64 == iss & 0x3F && iss / 64 % 2 == (iss >> 6) & 1 && (hpfar / 16) * 4096
        % 0x1_0000_0000_0000_0000 == (hpfar >> 4) << 12) by (bit_vector);
}

// ── What can be read on the display ────────────────────────────────────────

/// A cell shows a character in a colour.
pub open spec fn cell_shows(
    px: Seq<u32>,
    g: Geometry,
    font: Font,
    col: int,
    row: int,
    c: u8,
    color: u32,
) -> bool {
    forall|x: int, y: int|
        0 <= x && 0 <= y && in_cell(g, col, row, 3, x, y) ==> #[trigger] px[y * g.stride() + x]
            == char_pixel(font, c, col, row, 3, color, C_BG, x, y)
}

/// The characters of some pieces, each with its colour.
pub open spec fn cells_of(spans: Seq<SpanView>) -> Seq<(u8, u32)>
    decreases spans.len(),
{
    if spans.len() == 0 {
        Seq::empty()
    } else {
        spans[0].text.map_values(|c: u8| (c, spans[0].color)) + cells_of(spans.drop_first())
    }
}

/// From column `col` of a row on, the cells show these characters.
pub open spec fn row_shows(
    px: Seq<u32>,
    g: Geometry,
    font: Font,
    col: int,
    row: int,
    cells: Seq<(u8, u32)>,
) -> bool {
    forall|j: int|
        0 <= j < cells.len() ==> cell_shows(
            px,
            g,
            font,
            col + j,
            row,
            (#[trigger] cells[j]).0,
            cells[j].1,
        )
}

/// What was drawn left of `col` in row `row`, or in a row above it, is still there.
pub open spec fn keeps(before: Seq<u32>, after: Seq<u32>, g: Geometry, col: int, row: int) -> bool {
    &&& after.len() == before.len()
    &&& forall|x: int, y: int|
        0 <= x < g.width && 0 <= y < g.height && (y < 24 * row || (y < 24 * row + 24 && x < 24
            * col)) ==> #[trigger] after[y * g.stride() + x] == before[y * g.stride() + x]
}

proof fn lemma_keeps_cell(
    before: Seq<u32>,
    after: Seq<u32>,
    g: Geometry,
    font: Font,
    col: int,
    row: int,
    c2: int,
    r2: int,
    c: u8,
    color: u32,
)
    requires
        keeps(before, after, g, col, row),
        r2 < row || (r2 == row && c2 < col),
        cell_shows(before, g, font, c2, r2, c, color),
    ensures
        cell_shows(after, g, font, c2, r2, c, color),
{
    assert(8 * 3int * c2 == 24 * c2 && 8 * 3int * r2 == 24 * r2);
    assert forall|x: int, y: int|
        0 <= x && 0 <= y && in_cell(g, c2, r2, 3, x, y) implies #[trigger] after[y * g.stride() + x]
        == char_pixel(font, c, c2, r2, 3, color, C_BG, x, y) by {
        assert(after[y * g.stride() + x] == before[y * g.stride() + x]);
    }
}

proof fn lemma_put_char(pen: Pen, g: Geometry, font: Font, c: u8, color: u32)
    requires
        g.wf(),
        pen.px.len() == g.area(),
        0 <= pen.col,
        0 <= pen.row,
    ensures
        ({
            let after = put_char(pen, g, font, c, color);
            &&& cell_shows(after.px, g, font, pen.col, pen.row, c, color)
            &&& keeps(pen.px, after.px, g, pen.col, pen.row)
        }),
{
    let after = put_char(pen, g, font, c, color);
    assert(8 * 3int * pen.col == 24 * pen.col && 8 * 3int * pen.row == 24 * pen.row);
    assert forall|x: int, y: int|
        0 <= x && 0 <= y && in_cell(g, pen.col, pen.row, 3, x, y) implies #[trigger] after.px[y
        * g.stride() + x] == char_pixel(font, c, pen.col, pen.row, 3, color, C_BG, x, y) by {
        lemma_position(g, x, y);
    }
    assert forall|x: int, y: int|
        0 <= x < g.width && 0 <= y < g.height && (y < 24 * pen.row || (y < 24 * pen.row + 24 && x
            < 24 * pen.col)) implies #[trigger] after.px[y * g.stride() + x] == pen.px[y
        * g.stride() + x] by {
        lemma_position(g, x, y);
    }
}

/// Draws a piece that fits into its row.
proof fn lemma_put_span(pen: Pen, g: Geometry, font: Font, text: Seq<u8>, color: u32)
    requires
        g.wf(),
        pen.px.len() == g.area(),
        0 <= pen.col,
        0 <= pen.row < max_row(g),
        pen.col + text.len() <= max_col(g),
    ensures
        put_text(pen, g, font, text, color) == put_digits(pen, g, font, text, color),
        ({
            let after = put_digits(pen, g, font, text, color);
            &&& after.col == pen.col + text.len()
            &&& after.row == pen.row
            &&& keeps(pen.px, after.px, g, pen.col, pen.row)
            &&& row_shows(
                after.px,
                g,
                font,
                pen.col,
                pen.row,
                text.map_values(|c: u8| (c, color)),
            )
        }),
    decreases text.len(),
{
    if text.len() > 0 {
        let mid = put_char(pen, g, font, text[0], color);
        let tail = text.drop_first();
        lemma_put_char(pen, g, font, text[0], color);
        lemma_put_span(mid, g, font, tail, color);
        let after = put_digits(mid, g, font, tail, color);
        let cells = text.map_values(|c: u8| (c, color));
        let later = tail.map_values(|c: u8| (c, color));
        lemma_keeps_cell(
            mid.px,
            after.px,
            g,
            font,
            mid.col,
            mid.row,
            pen.col,
            pen.row,
            text[0],
            color,
        );
        assert forall|j: int| 0 <= j < cells.len() implies cell_shows(
            after.px,
            g,
            font,
            pen.col + j,
            pen.row,
            (#[trigger] cells[j]).0,
            cells[j].1,
        ) by {
            if j > 0 {
                assert(later[j - 1] == cells[j]);
            }
        }
        assert(keeps(pen.px, after.px, g, pen.col, pen.row));
    }
}

/// Draws pieces that fit into their row together.
proof fn lemma_put_spans(pen: Pen, g: Geometry, font: Font, spans: Seq<SpanView>)
    requires
        g.wf(),
        pen.px.len() == g.area(),
        0 <= pen.col,
        0 <= pen.row < max_row(g),
        pen.col + cells_of(spans).len() <= max_col(g),
    ensures
        ({
            let after = put_spans(pen, g, font, spans);
            &&& after.row == pen.row
            &&& keeps(pen.px, after.px, g, pen.col, pen.row)
            &&& row_shows(after.px, g, font, pen.col, pen.row, cells_of(spans))
        }),
    decreases spans.len(),
{
    if spans.len() > 0 {
        let first = spans[0];
        let head = first.text.map_values(|c: u8| (c, first.color));
        let tail = cells_of(spans.drop_first());
        let all = cells_of(spans);
        assert(all =~= head + tail);
        lemma_put_span(pen, g, font, first.text, first.color);
        let mid = put_span(pen, g, font, first);
        lemma_put_spans(mid, g, font, spans.drop_first());
        let after = put_spans(mid, g, font, spans.drop_first());
        assert forall|j: int| 0 <= j < all.len() implies cell_shows(
            after.px,
            g,
            font,
            pen.col + j,
            pen.row,
            (#[trigger] all[j]).0,
            all[j].1,
        ) by {
            if j < head.len() {
                assert(head[j] == all[j]);
                lemma_keeps_cell(
                    mid.px,
                    after.px,
                    g,
                    font,
                    mid.col,
                    mid.row,
                    pen.col + j,
                    pen.row,
                    all[j].0,
                    all[j].1,
                );
            } else {
                assert(tail[j - head.len()] == all[j]);
            }
        }
    }
}

/// The lines fit on the display: none is wider, and they are not too many.
pub open spec fn fits(g: Geometry, lines: Seq<LineView>) -> bool {
    &&& lines.len() <= max_row(g)
    &&& forall|i: int|
        0 <= i < lines.len() ==> (#[trigger] lines[i]).indent + cells_of(lines[i].spans).len()
            <= max_col(g)
}

proof fn lemma_put_lines(pen: Pen, g: Geometry, font: Font, lines: Seq<LineView>)
    requires
        g.wf(),
        pen.px.len() == g.area(),
        -1 <= pen.row,
        pen.row + 1 + lines.len() <= max_row(g),
        fits(g, lines),
    ensures
        ({
            let after = put_lines(pen, g, font, lines);
            &&& keeps(pen.px, after.px, g, 0, pen.row + 1)
            &&& forall|i: int|
                0 <= i < lines.len() ==> row_shows(
                    after.px,
                    g,
                    font,
                    (#[trigger] lines[i]).indent as int,
                    pen.row + 1 + i,
                    cells_of(lines[i].spans),
                )
        }),
    decreases lines.len(),
{
    if lines.len() > 0 {
        let at = Pen { px: pen.px, col: lines[0].indent as int, row: pen.row + 1 };
        lemma_put_spans(at, g, font, lines[0].spans);
        let mid = put_spans(at, g, font, lines[0].spans);
        let tail = lines.drop_first();
        assert forall|i: int| 0 <= i < tail.len() implies (#[trigger] tail[i]).indent + cells_of(
            tail[i].spans,
        ).len() <= max_col(g) by {
            assert(tail[i] == lines[i + 1]);
        }
        lemma_put_lines(mid, g, font, tail);
        let after = put_lines(mid, g, font, tail);
        assert forall|i: int| 0 <= i < lines.len() implies row_shows(
            after.px,
            g,
            font,
            (#[trigger] lines[i]).indent as int,
            pen.row + 1 + i,
            cells_of(lines[i].spans),
        ) by {
            let cells = cells_of(lines[i].spans);
            if i == 0 {
                assert forall|j: int| 0 <= j < cells.len() implies cell_shows(
                    after.px,
                    g,
                    font,
                    at.col + j,
                    at.row,
                    (#[trigger] cells[j]).0,
                    cells[j].1,
                ) by {
                    lemma_keeps_cell(
                        mid.px,
                        after.px,
                        g,
                        font,
                        0,
                        mid.row + 1,
                        at.col + j,
                        at.row,
                        cells[j].0,
                        cells[j].1,
                    );
                }
            } else {
                assert(tail[i - 1] == lines[i]);
            }
        }
    }
}

/// Lines that fit on the display can be read on it: line by line from the top, each
/// character in its colour at its place.
pub proof fn lemma_lines_can_be_read(n: nat, g: Geometry, font: Font, lines: Seq<LineView>)
    requires
        g.wf(),
        n == g.area(),
        fits(g, lines),
    ensures
        forall|i: int|
            0 <= i < lines.len() ==> row_shows(
                shown(n, g, font, lines),
                g,
                font,
                (#[trigger] lines[i]).indent as int,
                i,
                cells_of(lines[i].spans),
            ),
{
    let blank = Pen { px: Seq::new(n, |i: int| C_BG), col: 0, row: -1 };
    lemma_put_lines(blank, g, font, lines);
}

// ── The report fits ────────────────────────────────────────────────────────

/// The length of a piece of plain ASCII text.
proof fn lemma_ascii(s: &str)
    requires
        vstd::utf8::is_ascii_chars(s@),
    ensures
        utf8(s).len() == s@.len(),
{
    vstd::utf8::is_ascii_chars_encode_utf8(s@);
}

proof fn lemma_ec_name_len(ec: u8)
    ensures
        utf8(ec_name(ec)).len() <= 31,
{
    match ec {
        0x00 => {
            reveal_strlit("Unknown");
            lemma_ascii("Unknown");
        },
        0x01 => {
            reveal_strlit("WFI/WFE trap");
            lemma_ascii("WFI/WFE trap");
        },
        0x07 => {
            reveal_strlit("SVE/SIMD/FP access trap");
            lemma_ascii("SVE/SIMD/FP access trap");
        },
        0x0E => {
            reveal_strlit("Illegal execution state");
            lemma_ascii("Illegal execution state");
        },
        0x11 => {
            reveal_strlit("SVC from AArch32");
            lemma_ascii("SVC from AArch32");
        },
        0x12 => {
            reveal_strlit("HVC from AArch32");
            lemma_ascii("HVC from AArch32");
        },
        0x13 => {
            reveal_strlit("SMC from AArch32");
            lemma_ascii("SMC from AArch32");
        },
        0x15 => {
            reveal_strlit("SVC from AArch64");
            lemma_ascii("SVC from AArch64");
        },
        0x16 => {
            reveal_strlit("HVC from AArch64");
            lemma_ascii("HVC from AArch64");
        },
        0x17 => {
            reveal_strlit("SMC from AArch64");
            lemma_ascii("SMC from AArch64");
        },
        0x18 => {
            reveal_strlit("MSR/MRS/System instruction trap");
            lemma_ascii("MSR/MRS/System instruction trap");
        },
        0x20 => {
            reveal_strlit("Instruction abort (lower EL)");
            lemma_ascii("Instruction abort (lower EL)");
        },
        0x21 => {
            reveal_strlit("Instruction abort (same EL)");
            lemma_ascii("Instruction abort (same EL)");
        },
        0x22 => {
            reveal_strlit("PC alignment fault");
            lemma_ascii("PC alignment fault");
        },
        0x24 => {
            reveal_strlit("Data abort (lower EL)");
            lemma_ascii("Data abort (lower EL)");
        },
        0x25 => {
            reveal_strlit("Data abort (same EL)");
            lemma_ascii("Data abort (same EL)");
        },
        0x26 => {
            reveal_strlit("SP alignment fault");
            lemma_ascii("SP alignment fault");
        },
        0x2C => {
            reveal_strlit("FP exception (AArch64)");
            lemma_ascii("FP exception (AArch64)");
        },
        0x2F => {
            reveal_strlit("SError interrupt");
            lemma_ascii("SError interrupt");
        },
        0x30 => {
            reveal_strlit("Breakpoint (lower EL)");
            lemma_ascii("Breakpoint (lower EL)");
        },
        0x31 => {
            reveal_strlit("Breakpoint (same EL)");
            lemma_ascii("Breakpoint (same EL)");
        },
        0x32 => {
            reveal_strlit("Software step (lower EL)");
            lemma_ascii("Software step (lower EL)");
        },
        0x33 => {
            reveal_strlit("Software step (same EL)");
            lemma_ascii("Software step (same EL)");
        },
        0x34 => {
            reveal_strlit("Watchpoint (lower EL)");
            lemma_ascii("Watchpoint (lower EL)");
        },
        0x35 => {
            reveal_strlit("Watchpoint (same EL)");
            lemma_ascii("Watchpoint (same EL)");
        },
        0x3C => {
            reveal_strlit("BRK instruction");
            lemma_ascii("BRK instruction");
        },
        _ => {
            reveal_strlit("Reserved");
            lemma_ascii("Reserved");
        },
    }
}

proof fn lemma_fsc_name_len(fsc: u8)
    ensures
        utf8(fsc_name(fsc)).len() <= 31,
{
    match fsc {
        0x00 => {
            reveal_strlit("Address size fault L0");
            lemma_ascii("Address size fault L0");
        },
        0x01 => {
            reveal_strlit("Address size fault L1");
            lemma_ascii("Address size fault L1");
        },
        0x02 => {
            reveal_strlit("Address size fault L2");
            lemma_ascii("Address size fault L2");
        },
        0x03 => {
            reveal_strlit("Address size fault L3");
            lemma_ascii("Address size fault L3");
        },
        0x04 => {
            reveal_strlit("Translation fault L0");
            lemma_ascii("Translation fault L0");
        },
        0x05 => {
            reveal_strlit("Translation fault L1");
            lemma_ascii("Translation fault L1");
        },
        0x06 => {
            reveal_strlit("Translation fault L2");
            lemma_ascii("Translation fault L2");
        },
        0x07 => {
            reveal_strlit("Translation fault L3");
            lemma_ascii("Translation fault L3");
        },
        0x08 => {
            reveal_strlit("Access flag fault L0");
            lemma_ascii("Access flag fault L0");
        },
        0x09 => {
            reveal_strlit("Access flag fault L1");
            lemma_ascii("Access flag fault L1");
        },
        0x0A => {
            reveal_strlit("Access flag fault L2");
            lemma_ascii("Access flag fault L2");
        },
        0x0B => {
            reveal_strlit("Access flag fault L3");
            lemma_ascii("Access flag fault L3");
        },
        0x0C => {
            reveal_strlit("Permission fault L0");
            lemma_ascii("Permission fault L0");
        },
        0x0D => {
            reveal_strlit("Permission fault L1");
            lemma_ascii("Permission fault L1");
        },
        0x0E => {
            reveal_strlit("Permission fault L2");
            lemma_ascii("Permission fault L2");
        },
        0x0F => {
            reveal_strlit("Permission fault L3");
            lemma_ascii("Permission fault L3");
        },
        0x10 => {
            reveal_strlit("Synchronous external abort");
            lemma_ascii("Synchronous external abort");
        },
        0x14 => {
            reveal_strlit("Sync ext abort on table walk L0");
            lemma_ascii("Sync ext abort on table walk L0");
        },
        0x15 => {
            reveal_strlit("Sync ext abort on table walk L1");
            lemma_ascii("Sync ext abort on table walk L1");
        },
        0x16 => {
            reveal_strlit("Sync ext abort on table walk L2");
            lemma_ascii("Sync ext abort on table walk L2");
        },
        0x17 => {
            reveal_strlit("Sync ext abort on table walk L3");
            lemma_ascii("Sync ext abort on table walk L3");
        },
        0x21 => {
            reveal_strlit("Alignment fault");
            lemma_ascii("Alignment fault");
        },
        0x30 => {
            reveal_strlit("TLB conflict abort");
            lemma_ascii("TLB conflict abort");
        },
        _ => {
            reveal_strlit("Reserved FSC");
            lemma_ascii("Reserved FSC");
        },
    }
}

proof fn lemma_encode_concat(a: Seq<char>, b: Seq<char>)
    ensures
        vstd::utf8::encode_utf8(a + b) == vstd::utf8::encode_utf8(a) + vstd::utf8::encode_utf8(b),
    decreases a.len(),
{
    if a.len() == 0 {
        assert(a + b =~= b);
        assert(vstd::utf8::encode_utf8(a) + vstd::utf8::encode_utf8(b) =~= vstd::utf8::encode_utf8(
            b,
        ));
    } else {
        assert((a + b).drop_first() =~= a.drop_first() + b);
        lemma_encode_concat(a.drop_first(), b);
        assert(vstd::utf8::encode_utf8(a + b) =~= vstd::utf8::encode_utf8(a)
            + vstd::utf8::encode_utf8(b));
    }
}

/// A text that is plain ASCII but for the character at `i` has at most three bytes more
/// than characters.
proof fn lemma_one_dash(s: &str, i: int)
    requires
        0 <= i < s@.len(),
        vstd::utf8::is_ascii_chars(s@.take(i)),
        vstd::utf8::is_ascii_chars(s@.skip(i + 1)),
    ensures
        utf8(s).len() <= s@.len() + 3,
{
    let a = s@.take(i);
    let b = seq![s@[i]];
    let c = s@.skip(i + 1);
    assert(s@ =~= a + b + c);
    lemma_encode_concat(a + b, c);
    lemma_encode_concat(a, b);
    vstd::utf8::is_ascii_chars_encode_utf8(a);
    vstd::utf8::is_ascii_chars_encode_utf8(c);
    assert(b.drop_first() =~= Seq::empty());
    assert(vstd::utf8::encode_utf8(b).len() <= 4) by {
        reveal_with_fuel(vstd::utf8::encode_utf8, 2);
    }
}

proof fn lemma_hint_len(hpfar: u64)
    ensures
        hint_lines(hpfar).len() <= 1,
        hint_lines(hpfar).len() == 1 ==> hint_lines(hpfar)[0].indent + cells_of(
            hint_lines(hpfar)[0].spans,
        ).len() <= 53,
{
    reveal_strlit("  (IPA=0 likely not a stage-2 fault)");
    lemma_ascii("  (IPA=0 likely not a stage-2 fault)");
    reveal_strlit("  below kernel (0x80000) — null ptr / early boot");
    lemma_one_dash("  below kernel (0x80000) — null ptr / early boot", 25);
    reveal_strlit("  device region — bad peripheral access");
    lemma_one_dash("  device region — bad peripheral access", 16);
    reveal_strlit("  EL2 page-table pool — stage-2 corruption!");
    lemma_one_dash("  EL2 page-table pool — stage-2 corruption!", 22);
    if let Some(hint) = ipa_hint(ipa_of(hpfar)) {
        lemma_cells(seq![words(hint, C_FIELD)]);
        assert(utf8(hint).len() <= 51);
    }
}

/// The number of characters in some pieces.
spec fn total_len(spans: Seq<SpanView>) -> nat
    decreases spans.len(),
{
    if spans.len() == 0 {
        0
    } else {
        spans[0].text.len() + total_len(spans.drop_first())
    }
}

proof fn lemma_cells(spans: Seq<SpanView>)
    ensures
        cells_of(spans).len() == total_len(spans),
        spans.len() > 0 ==> total_len(spans) == spans[0].text.len() + total_len(spans.drop_first()),
        spans.len() == 0 ==> total_len(spans) == 0,
        spans.len() == 1 ==> total_len(spans) == spans[0].text.len(),
        spans.len() == 2 ==> total_len(spans) == spans[0].text.len() + spans[1].text.len(),
        spans.len() == 3 ==> total_len(spans) == spans[0].text.len() + spans[1].text.len()
            + spans[2].text.len(),
        spans.len() == 4 ==> total_len(spans) == spans[0].text.len() + spans[1].text.len()
            + spans[2].text.len() + spans[3].text.len(),
        spans.len() == 5 ==> total_len(spans) == spans[0].text.len() + spans[1].text.len()
            + spans[2].text.len() + spans[3].text.len() + spans[4].text.len(),
    decreases spans.len(),
{
    if spans.len() > 0 {
        lemma_cells(spans.drop_first());
    }
}

spec fn line_fits(line: LineView) -> bool {
    line.indent + cells_of(line.spans).len() <= 53
}

spec fn lines_fit(lines: Seq<LineView>) -> bool {
    forall|i: int| 0 <= i < lines.len() ==> line_fits(#[trigger] lines[i])
}

proof fn lemma_syndrome_fits(esr: u64)
    ensures
        lines_fit(syndrome_lines(esr)),
{
    reveal_strlit("  EL2 HYPERVISOR FAULT  ");
    lemma_ascii("  EL2 HYPERVISOR FAULT  ");
    reveal_strlit("================================================");
    lemma_ascii("================================================");
    reveal_strlit("ESR_EL2  : 0x");
    lemma_ascii("ESR_EL2  : 0x");
    reveal_strlit("EC  = 0x");
    lemma_ascii("EC  = 0x");
    reveal_strlit("  ");
    lemma_ascii("  ");
    reveal_strlit("ISS = 0x");
    lemma_ascii("ISS = 0x");
    lemma_ec_name_len(ec_of(esr));
    lemma_hex_len(esr as nat, 16);
    lemma_hex_len((ec_of(esr) as u64) as nat, 2);
    lemma_hex_len(iss_of(esr) as nat, 6);
    let a = syndrome_lines(esr);
    lemma_cells(a[0].spans);
    lemma_cells(a[1].spans);
    lemma_cells(a[2].spans);
    lemma_cells(a[3].spans);
    lemma_cells(a[4].spans);
    assert(line_fits(a[0]) && line_fits(a[1]) && line_fits(a[2]) && line_fits(a[3]) && line_fits(
        a[4],
    ));
}

proof fn lemma_status_fits(esr: u64)
    ensures
        lines_fit(status_lines(esr)),
{
    reveal_strlit("DFSC=0x");
    lemma_ascii("DFSC=0x");
    reveal_strlit("IFSC=0x");
    lemma_ascii("IFSC=0x");
    reveal_strlit("  ");
    lemma_ascii("  ");
    reveal_strlit("  WRITE");
    lemma_ascii("  WRITE");
    reveal_strlit("  READ");
    lemma_ascii("  READ");
    let fsc = (iss_of(esr) % 64) as u8;
    lemma_fsc_name_len(fsc);
    lemma_hex_len((fsc as u64) as nat, 2);
    let a = status_lines(esr);
    if a.len() > 0 {
        lemma_cells(a[0].spans);
        assert(line_fits(a[0]));
    }
}

proof fn lemma_address_fits(elr: u64, far: u64, hpfar: u64)
    ensures
        lines_fit(address_lines(elr, far, hpfar)),
{
    reveal_strlit("ELR_EL2  : 0x");
    lemma_ascii("ELR_EL2  : 0x");
    reveal_strlit("  <- faulting PC");
    lemma_ascii("  <- faulting PC");
    reveal_strlit("FAR_EL2  : 0x");
    lemma_ascii("FAR_EL2  : 0x");
    reveal_strlit("  <- virtual address");
    lemma_ascii("  <- virtual address");
    reveal_strlit("HPFAR_EL2: 0x");
    lemma_ascii("HPFAR_EL2: 0x");
    reveal_strlit("  IPA=0x");
    lemma_ascii("  IPA=0x");
    lemma_hex_len(elr as nat, 16);
    lemma_hex_len(far as nat, 16);
    lemma_hex_len(hpfar as nat, 16);
    lemma_hex_len(ipa_of(hpfar) as nat, 16);
    let a = address_lines(elr, far, hpfar);
    lemma_cells(a[0].spans);
    lemma_cells(a[1].spans);
    lemma_cells(a[2].spans);
    assert(line_fits(a[0]) && line_fits(a[1]) && line_fits(a[2]));
}

proof fn lemma_footer_fits()
    ensures
        lines_fit(footer_lines()),
{
    reveal_strlit("------------------------------------------------");
    lemma_ascii("------------------------------------------------");
    reveal_strlit("Linux crashed at EL1.  CPU halted.");
    lemma_ascii("Linux crashed at EL1.  CPU halted.");
    reveal_strlit("Power-cycle or reset to reboot.");
    lemma_ascii("Power-cycle or reset to reboot.");
    let a = footer_lines();
    lemma_cells(a[0].spans);
    lemma_cells(a[1].spans);
    lemma_cells(a[2].spans);
    assert(line_fits(a[0]) && line_fits(a[1]) && line_fits(a[2]));
}

proof fn lemma_both_fit(a: Seq<LineView>, b: Seq<LineView>)
    requires
        lines_fit(a),
        lines_fit(b),
    ensures
        lines_fit(a + b),
{
}

/// Every report fits on a display of 1280 by 720 pixels, and can be read there line by
/// line from the top.
pub proof fn lemma_report_can_be_read(
    g: Geometry,
    font: Font,
    esr: u64,
    elr: u64,
    far: u64,
    hpfar: u64,
)
    requires
        g.wf(),
        g.width == 1280,
        g.height == 720,
    ensures
        ({
            let lines = report(esr, elr, far, hpfar);
            forall|i: int|
                0 <= i < lines.len() ==> row_shows(
                    shown(g.area() as nat, g, font, lines),
                    g,
                    font,
                    (#[trigger] lines[i]).indent as int,
                    i,
                    cells_of(lines[i].spans),
                )
        }),
{
    let a = syndrome_lines(esr);
    let b = status_lines(esr);
    let c = address_lines(elr, far, hpfar);
    let d = hint_lines(hpfar);
    let e = footer_lines();
    let lines = report(esr, elr, far, hpfar);
    lemma_syndrome_fits(esr);
    lemma_status_fits(esr);
    lemma_address_fits(elr, far, hpfar);
    lemma_hint_len(hpfar);
    lemma_footer_fits();
    assert(lines_fit(d));
    lemma_both_fit(a, b);
    lemma_both_fit(a + b, c);
    lemma_both_fit(a + b + c, d);
    lemma_both_fit(a + b + c + d, e);
    assert(b.len() <= 1);
    assert forall|i: int| 0 <= i < lines.len() implies (#[trigger] lines[i]).indent + cells_of(
        lines[i].spans,
    ).len() <= max_col(g) by {
        assert(line_fits(lines[i]));
    }
    assert(0 <= g.area()) by {
        lemma_area(g);
    }
    lemma_lines_can_be_read(g.area() as nat, g, font, lines);
}

// ── Faults of the guest ────────────────────────────────────────────────────

/// What to do about a fault of the guest.
#[derive(Clone, Copy, PartialEq, Eq, Structural, Debug)]
pub enum GuestFault {
    /// Leave the instruction out: go on at this address.
    Skip(u64),
    /// Draw the report and halt.
    Report,
}

/// The guest has tried to store to the remembered framebuffer, which it may only read:
/// a data abort of a lower level on a write, for want of permission, whose page lies
/// in a protected block.
pub open spec fn is_refused_store(con: HvConsole, esr: u64, hpfar: u64) -> bool {
    &&& con.base != 0
    &&& ec_of(esr) == 0x24
    &&& iss_of(esr) / 64 % 2 == 1
    &&& 0x0C <= iss_of(esr) % 64 <= 0x0F
    &&& block_touched(con.base as int, con.pitch * con.height, ipa_of(hpfar) as int / 0x20_0000)
}

/// Decides about a fault of the guest at `elr`. A store to the framebuffer is left out
/// silently, so that the report is never overwritten; everything else is reported.
pub fn guest_fault(con: &HvConsole, esr: u64, elr: u64, hpfar: u64) -> (r: GuestFault)
    requires
        con.base + con.pitch * con.height <= u64::MAX,
    ensures
        r == (if is_refused_store(*con, esr, hpfar) {
            GuestFault::Skip(elr.wrapping_add(4))
        } else {
            GuestFault::Report
        }),
{
    let ec: u64 = esr / 0x400_0000 % 64;
    let iss: u64 = esr % 0x100_0000;
    let ipa: u64 = hpfar / 16 % 0x10_0000_0000_0000 * 4096;
    assert(ipa == ipa_of(hpfar)) by {
        let q = hpfar as int / 16;
        assert((q * 4096) % 0x1_0000_0000_0000_0000 == q % 0x10_0000_0000_0000 * 4096);
    }
    assert(con.pitch * con.height >= 0) by (nonlinear_arith);
    assert(con.pitch * con.height <= 0xFFFF_FFFF * 0xFFFF_FFFF) by (nonlinear_arith);
    let size: u64 = con.pitch as u64 * con.height as u64;
    let blk: u64 = ipa / 0x20_0000;
    let base: u64 = con.base as u64;
    // The block's first byte lies before the framebuffer's end, and its last byte not
    // before the framebuffer's start.
    if con.base != 0 && ec == 0x24 && iss / 64 % 2 == 1 && 0x0C <= iss % 64 && iss % 64 <= 0x0F
        && base / 0x20_0000 <= blk && blk * 0x20_0000 < base + size {
        GuestFault::Skip(elr.wrapping_add(4))
    } else {
        GuestFault::Report
    }
}

/// What is left out are stores that the page tables refuse: under tables that protect
/// the remembered framebuffer, the page of the fault cannot be written by the guest.
pub proof fn lemma_only_refused_stores_are_skipped(con: HvConsole, esr: u64, hpfar: u64)
    requires
        is_refused_store(con, esr, hpfar),
        ipa_of(hpfar) < 0x1_0000_0000,
    ensures
        ({
            let tables = protected_tables(
                identity_tables(),
                con.base as int,
                con.pitch * con.height,
            );
            translate(stage2_regs(), tables, ipa_of(hpfar) as int) matches Some(m) && !m.writable
        }),
{
    lemma_protected_map(con.base as int, con.pitch * con.height, ipa_of(hpfar) as int);
}

} // verus!
