//! The display: a framebuffer of the GPU with a text console on it.
use vstd::prelude::*;
use crate::glyph::{Font, Geometry, drawn, draw_char, fill, lemma_area};
use crate::text::utf8;

verus! {

pub const WIDTH: u32 = 1280;
pub const HEIGHT: u32 = 720;
/// Bits in a pixel.
pub const BPP: u32 = 32;
/// Dark navy.
pub const BG: u32 = 0xFF1A_1A2E;
/// White.
pub const FG: u32 = 0xFFFF_FFFF;
/// Each bit of a character is a square of this many pixels.
pub const SCALE: u32 = 2;
/// The width and the height of a character cell.
pub const CELL: u32 = 16;

// Tags of the property interface.
pub const TAG_SET_PHYSICAL_SIZE: u32 = 0x0004_8003;
pub const TAG_SET_VIRTUAL_SIZE: u32 = 0x0004_8004;
pub const TAG_SET_VIRTUAL_OFFSET: u32 = 0x0004_8009;
pub const TAG_SET_DEPTH: u32 = 0x0004_8005;
pub const TAG_SET_PIXEL_ORDER: u32 = 0x0004_8006;
pub const TAG_ALLOCATE_BUFFER: u32 = 0x0004_0001;
pub const TAG_GET_PITCH: u32 = 0x0004_0008;
/// The bits of a bus address that make a physical address.
pub const PHYSICAL_MASK: u32 = 0x3FFF_FFFF;

/// The framebuffer and the cursor of the console on it.
#[derive(Clone, Copy, PartialEq, Eq, Structural, Debug)]
pub struct Fb {
    /// The physical address.
    pub base: u32,
    pub width: u32,
    pub height: u32,
    /// Bytes in a line.
    pub pitch: u32,
    /// Character cells in a line.
    pub cols: u32,
    /// Lines of character cells.
    pub rows: u32,
    pub col: u32,
    pub row: u32,
}

impl Fb {
    pub open spec fn geometry(self) -> Geometry {
        Geometry { width: self.width, height: self.height, pitch: self.pitch }
    }

    /// The layout is sound, there is at least one line of cells, and the cursor is on
    /// one of them.
    pub open spec fn wf(self) -> bool {
        &&& self.geometry().wf()
        &&& self.cols == self.width / CELL
        &&& self.rows == self.height / CELL
        &&& self.row < self.rows
        &&& self.col == 0 || self.col < self.cols
    }

    pub fn get_geometry(&self) -> (g: Geometry)
        ensures
            g == self.geometry(),
    {
        Geometry { width: self.width, height: self.height, pitch: self.pitch }
    }

    /// Tells whether the console can be used: see [`Fb::wf`].
    pub fn is_sound(&self) -> (r: bool)
        ensures
            r == self.wf(),
    {
        self.get_geometry().is_sound() && self.cols == self.width / CELL && self.rows == self.height
            / CELL && self.row < self.rows && (self.col == 0 || self.col < self.cols)
    }
}

// ── Set-up ─────────────────────────────────────────────────────────────────

/// The message that asks the GPU for a framebuffer. The GPU fills in the replies.
pub open spec fn message_words() -> Seq<u32> {
    seq![
        140u32, 0,
        TAG_SET_PHYSICAL_SIZE, 8, 0, WIDTH, HEIGHT,
        TAG_SET_VIRTUAL_SIZE, 8, 8, WIDTH, HEIGHT,
        TAG_SET_VIRTUAL_OFFSET, 8, 8, 0, 0,
        TAG_SET_DEPTH, 4, 4, BPP,
        TAG_SET_PIXEL_ORDER, 4, 4, 1,
        TAG_ALLOCATE_BUFFER, 8, 8, 4096, 0,
        TAG_GET_PITCH, 4, 4, 0,
        0, 0,
    ]
}

pub fn init_message() -> (m: [u32; 36])
    ensures
        m@ == message_words(),
{
    let m: [u32; 36] = [
        140, 0,
        TAG_SET_PHYSICAL_SIZE, 8, 0, WIDTH, HEIGHT,
        TAG_SET_VIRTUAL_SIZE, 8, 8, WIDTH, HEIGHT,
        TAG_SET_VIRTUAL_OFFSET, 8, 8, 0, 0,
        TAG_SET_DEPTH, 4, 4, BPP,
        TAG_SET_PIXEL_ORDER, 4, 4, 1,
        TAG_ALLOCATE_BUFFER, 8, 8, 4096, 0,
        TAG_GET_PITCH, 4, 4, 0,
        0, 0,
    ];
    assert(m@ =~= message_words());
    m
}

/// The framebuffer that the GPU's reply describes, with the cursor at the top left.
pub open spec fn reply_fb(m: Seq<u32>) -> Fb {
    Fb {
        base: m[28] & PHYSICAL_MASK,
        width: m[10],
        height: m[11],
        pitch: m[33],
        cols: m[10] / CELL,
        rows: m[11] / CELL,
        col: 0,
        row: 0,
    }
}

/// The GPU has set up a framebuffer: it has marked the message as a success, the depth
/// is right, and there is an address.
pub open spec fn has_framebuffer(acknowledged: bool, m: Seq<u32>) -> bool {
    acknowledged && m[20] == BPP && m[28] != 0
}

/// Takes the GPU's reply to [`init_message`]; `acknowledged` says whether the GPU has
/// marked it as a success. A failure leaves everything as it was.
pub fn init_inner(fb: &mut Option<Fb>, acknowledged: bool, m: &[u32; 36]) -> (ok: bool)
    ensures
        ok == (acknowledged && m@[20] == BPP && m@[28] != 0),
        ok == has_framebuffer(acknowledged, m@),
        *final(fb) == (if ok {
            Some(reply_fb(m@))
        } else {
            *old(fb)
        }),
{
    if !acknowledged {
        return false;
    }
    if m[20] != BPP || m[28] == 0 {
        return false;
    }
    *fb = Some(
        Fb {
            base: m[28] & PHYSICAL_MASK,
            width: m[10],
            height: m[11],
            pitch: m[33],
            cols: m[10] / CELL,
            rows: m[11] / CELL,
            col: 0,
            row: 0,
        },
    );
    true
}

/// Takes the GPU's reply and clears the display, whose pixels are `px`. A failure
/// leaves the framebuffer and the pixels as they were.
pub fn init(fb: &mut Option<Fb>, px: &mut [u32], acknowledged: bool, m: &[u32; 36]) -> (ok: bool)
    requires
        has_framebuffer(acknowledged, m@) ==> sound(Some(reply_fb(m@)), old(px)@),
    ensures
        ok == (acknowledged && m@[20] == BPP && m@[28] != 0),
        ok == has_framebuffer(acknowledged, m@),
        *final(fb) == (if ok {
            Some(reply_fb(m@))
        } else {
            *old(fb)
        }),
        final(px)@ == (if ok {
            cleared(old(px)@)
        } else {
            old(px)@
        }),
{
    if !init_inner(fb, acknowledged, m) {
        return false;
    }
    clear_screen(fb, px);
    true
}

/// Address, pitch, width and height of the framebuffer; all 0 where there is none.
pub fn get_info(fb: &Option<Fb>) -> (info: (u32, u32, u32, u32))
    ensures
        info == (match *fb {
            Some(fb) => (fb.base, fb.pitch, fb.width, fb.height),
            None => (0, 0, 0, 0),
        }),
{
    match fb {
        Some(fb) => (fb.base, fb.pitch, fb.width, fb.height),
        None => (0, 0, 0, 0),
    }
}

// ── The console ────────────────────────────────────────────────────────────

/// What is on the display: the pixels, and the framebuffer with its cursor.
pub struct Screen {
    pub px: Seq<u32>,
    pub fb: Fb,
}

/// The pixels are those of the framebuffer.
pub open spec fn sound(fb: Option<Fb>, px: Seq<u32>) -> bool {
    fb matches Some(fb) ==> fb.wf() && px.len() == fb.geometry().area()
}

pub open spec fn cleared(px: Seq<u32>) -> Seq<u32> {
    Seq::new(px.len(), |i: int| BG)
}

/// Paints the whole display in the background colour and moves the cursor to the top
/// left.
pub fn clear_screen(fb: &mut Option<Fb>, px: &mut [u32])
    requires
        sound(*old(fb), old(px)@),
    ensures
        sound(*final(fb), final(px)@),
        match *old(fb) {
            None => *final(fb) == *old(fb) && final(px)@ == old(px)@,
            Some(was) => {
                &&& final(px)@ == cleared(old(px)@)
                &&& *final(fb) == Some(Fb { col: 0, row: 0, ..was })
            },
        },
{
    match fb {
        Some(f) => {
            fill(px, BG);
            f.col = 0;
            f.row = 0;
            assert(px@ =~= cleared(old(px)@));
        },
        None => {},
    }
}

/// The display with a character drawn at a cell.
pub open spec fn with_char(px: Seq<u32>, fb: Fb, font: Font, c: u8, col: int, row: int) -> Seq<u32> {
    drawn(px, fb.geometry(), font, c, col, row, SCALE as int, FG, BG)
}

/// The display moved up by one line of cells, if there is more than one.
pub open spec fn scrolled(px: Seq<u32>, fb: Fb) -> Seq<u32> {
    if fb.height <= CELL {
        px
    } else {
        let stride = fb.geometry().stride();
        Seq::new(
            px.len(),
            |i: int|
                if i < (fb.height - CELL) * stride {
                    px[i + CELL * stride]
                } else {
                    BG
                },
        )
    }
}

fn scroll_up(fb: &Fb, px: &mut [u32])
    requires
        fb.geometry().wf(),
        old(px)@.len() == fb.geometry().area(),
    ensures
        final(px)@ == scrolled(old(px)@, *fb),
{
    if fb.height <= CELL {
        return;
    }
    let ghost before = px@;
    let ghost stride = fb.geometry().stride();
    let ghost h = fb.height as int;
    proof {
        lemma_area(fb.geometry());
        assert(before.len() == (h - 16) * stride + 16 * stride && 0 <= 16 * stride && 0 <= (h - 16)
            * stride) by (nonlinear_arith)
            requires
                before.len() == stride * h,
                h > 16,
                0 <= stride,
        ;
    }
    let line: usize = (fb.pitch / 4) as usize;
    let shift: usize = CELL as usize * line;
    let n: usize = px.len();
    let kept: usize = n - shift;
    let mut i: usize = 0;
    while i < kept
        invariant
            before == old(px)@,
            n == before.len(),
            px@.len() == n,
            kept + shift == n,
            i <= kept,
            forall|j: int| 0 <= j < i ==> px@[j] == before[j + shift],
            forall|j: int| i <= j < n ==> px@[j] == before[j],
        decreases kept - i,
    {
        let p: u32 = px[i + shift];
        px[i] = p;
        i = i + 1;
    }
    while i < n
        invariant
            before == old(px)@,
            n == before.len(),
            px@.len() == n,
            kept + shift == n,
            kept <= i <= n,
            forall|j: int| 0 <= j < kept ==> px@[j] == before[j + shift],
            forall|j: int| kept <= j < i ==> px@[j] == BG,
        decreases n - i,
    {
        px[i] = BG;
        i = i + 1;
    }
    assert(px@ =~= scrolled(before, *fb));
}

/// Moves the cursor back onto the display: where it is below, everything moves up.
pub open spec fn kept_visible(s: Screen) -> Screen {
    if s.fb.row >= s.fb.rows {
        Screen { px: scrolled(s.px, s.fb), fb: Fb { row: (s.fb.rows - 1) as u32, ..s.fb } }
    } else {
        s
    }
}

/// Where a byte leads, before the cursor is brought back onto the display: a line feed
/// goes to the next line, a carriage return to its start; a backspace takes a
/// character back; everything else is drawn and the cursor advances, to the next line
/// at the end of one.
pub open spec fn typed(s: Screen, font: Font, c: u8) -> Screen {
    let fb = s.fb;
    if c == 0x0A {
        Screen { px: s.px, fb: Fb { col: 0, row: (fb.row + 1) as u32, ..fb } }
    } else if c == 0x0D {
        Screen { px: s.px, fb: Fb { col: 0, ..fb } }
    } else if c == 0x08 || c == 0x7F {
        if fb.col > 0 {
            Screen {
                px: with_char(s.px, fb, font, 0x20, fb.col - 1, fb.row as int),
                fb: Fb { col: (fb.col - 1) as u32, ..fb },
            }
        } else {
            s
        }
    } else {
        Screen {
            px: with_char(s.px, fb, font, c, fb.col as int, fb.row as int),
            fb: if fb.col + 1 >= fb.cols {
                Fb { col: 0, row: (fb.row + 1) as u32, ..fb }
            } else {
                Fb { col: (fb.col + 1) as u32, ..fb }
            },
        }
    }
}

/// The display after a byte.
pub open spec fn put_byte(s: Screen, font: Font, c: u8) -> Screen {
    kept_visible(typed(s, font, c))
}

/// The display after some bytes.
pub open spec fn put_bytes(s: Screen, font: Font, bytes: Seq<u8>) -> Screen
    decreases bytes.len(),
{
    if bytes.len() == 0 {
        s
    } else {
        put_bytes(put_byte(s, font, bytes[0]), font, bytes.drop_first())
    }
}

fn write_byte(fb: &mut Fb, px: &mut [u32], font: &Font, c: u8)
    requires
        old(fb).wf(),
        old(px)@.len() == old(fb).geometry().area(),
    ensures
        final(fb).wf(),
        final(fb).geometry() == old(fb).geometry(),
        final(px)@.len() == old(px)@.len(),
        (Screen { px: final(px)@, fb: *final(fb) }) == put_byte(
            Screen { px: old(px)@, fb: *old(fb) },
            *font,
            c,
        ),
{
    let g: Geometry = fb.get_geometry();
    if c == 0x0A {
        fb.col = 0;
        fb.row = fb.row + 1;
    } else if c == 0x0D {
        fb.col = 0;
    } else if c == 0x08 || c == 0x7F {
        if fb.col > 0 {
            fb.col = fb.col - 1;
            draw_char(px, &g, font, 0x20, fb.col, fb.row, SCALE, FG, BG);
        }
    } else {
        draw_char(px, &g, font, c, fb.col, fb.row, SCALE, FG, BG);
        fb.col = fb.col + 1;
        if fb.col >= fb.cols {
            fb.col = 0;
            fb.row = fb.row + 1;
        }
    }
    if fb.row >= fb.rows {
        scroll_up(fb, px);
        fb.row = fb.rows - 1;
    }
}

/// Writes text to the display.
pub struct FbWriter;

impl FbWriter {
    /// Writes bytes to the console; where there is no display, nothing happens.
    pub fn write_bytes(&self, fb: &mut Option<Fb>, px: &mut [u32], font: &Font, bytes: &[u8])
        requires
            sound(*old(fb), old(px)@),
        ensures
            sound(*final(fb), final(px)@),
            match *old(fb) {
                None => *final(fb) == *old(fb) && final(px)@ == old(px)@,
                Some(was) => {
                    let after = put_bytes(Screen { px: old(px)@, fb: was }, *font, bytes@);
                    *final(fb) == Some(after.fb) && final(px)@ == after.px
                },
            },
    {
        match fb {
            Some(f) => {
                let ghost start = Screen { px: px@, fb: *f };
                let n: usize = bytes.len();
                let mut i: usize = 0;
                assert(bytes@.skip(0) =~= bytes@);
                while i < n
                    invariant
                        n == bytes@.len(),
                        i <= n,
                        f.wf(),
                        px@.len() == f.geometry().area(),
                        put_bytes(Screen { px: px@, fb: *f }, *font, bytes@.skip(i as int))
                            == put_bytes(start, *font, bytes@),
                    decreases n - i,
                {
                    assert(bytes@.skip(i as int).drop_first() =~= bytes@.skip(i + 1));
                    write_byte(f, px, font, bytes[i]);
                    i = i + 1;
                }
            },
            None => {},
        }
    }

    /// Writes a string to the console; where there is no display, nothing happens.
    pub fn write_str(&self, fb: &mut Option<Fb>, px: &mut [u32], font: &Font, s: &str)
        requires
            sound(*old(fb), old(px)@),
        ensures
            sound(*final(fb), final(px)@),
            match *old(fb) {
                None => *final(fb) == *old(fb) && final(px)@ == old(px)@,
                Some(was) => {
                    let after = put_bytes(Screen { px: old(px)@, fb: was }, *font, utf8(s));
                    *final(fb) == Some(after.fb) && final(px)@ == after.px
                },
            },
    {
        self.write_bytes(fb, px, font, s.as_bytes());
    }
}

// ── The message as the GPU reads it ────────────────────────────────────────

/// Where the values of a tag lie, looked for from word `at` on. A tag has its name, the
/// size of its values in bytes, a word for the reply and then its values; a zero ends
/// the tags.
pub open spec fn values_at(m: Seq<u32>, tag: u32, at: int) -> Option<int>
    decreases m.len() - at,
{
    if at < 0 || at + 1 >= m.len() || m[at] == 0 || at + 3 + m[at + 1] / 4 > m.len() {
        None
    } else if m[at] == tag {
        Some(at + 3)
    } else {
        values_at(m, tag, at + 3 + m[at + 1] / 4)
    }
}

/// Value `k` of a tag in a message, whose tags start behind its size and its code.
pub open spec fn value_of(m: Seq<u32>, tag: u32, k: int) -> u32 {
    m[values_at(m, tag, 2)->Some_0 + k]
}

/// The tags of `m` are those of the request; only values and replies may differ.
pub open spec fn same_tags(m: Seq<u32>) -> bool {
    let r = message_words();
    &&& m.len() == 36
    &&& m[2] == r[2] && m[3] == r[3]
    &&& m[7] == r[7] && m[8] == r[8]
    &&& m[12] == r[12] && m[13] == r[13]
    &&& m[17] == r[17] && m[18] == r[18]
    &&& m[21] == r[21] && m[22] == r[22]
    &&& m[25] == r[25] && m[26] == r[26]
    &&& m[30] == r[30] && m[31] == r[31]
    &&& m[34] == 0
}

proof fn lemma_tags(m: Seq<u32>)
    requires
        same_tags(m),
    ensures
        values_at(m, 0x0004_8003, 2) == Some(5int),
        values_at(m, 0x0004_8004, 2) == Some(10int),
        values_at(m, 0x0004_8009, 2) == Some(15int),
        values_at(m, 0x0004_8005, 2) == Some(20int),
        values_at(m, 0x0004_8006, 2) == Some(24int),
        values_at(m, 0x0004_0001, 2) == Some(28int),
        values_at(m, 0x0004_0008, 2) == Some(33int),
{
    reveal_with_fuel(values_at, 8);
}

/// What the GPU is asked for: a display of 1280 by 720 pixels, all of it shown from its
/// first pixel on, with 32 bits to a pixel, red first (1), and a buffer at a multiple of
/// 4096. The message says how long it is, and that it is a request.
pub proof fn lemma_request()
    ensures
        ({
            let m = message_words();
            &&& m[0] == 140 && 4 * m.len() >= 140
            &&& m[1] == 0
            &&& value_of(m, 0x0004_8003, 0) == 1280 && value_of(m, 0x0004_8003, 1) == 720
            &&& value_of(m, 0x0004_8004, 0) == 1280 && value_of(m, 0x0004_8004, 1) == 720
            &&& value_of(m, 0x0004_8009, 0) == 0 && value_of(m, 0x0004_8009, 1) == 0
            &&& value_of(m, 0x0004_8005, 0) == 32
            &&& value_of(m, 0x0004_8006, 0) == 1
            &&& value_of(m, 0x0004_0001, 0) == 4096
            &&& values_at(m, 0x0004_0008, 2) == Some(33int)
            &&& m[34] == 0
        }),
{
    lemma_tags(message_words());
}

/// What is taken from the GPU's reply, wherever its values lie in it: the size of the
/// display, the address of the buffer without the two bits that the bus adds, and the
/// length of a line. There is a framebuffer where the GPU says so, has given 32 bits to
/// a pixel, and has an address for it. A cell has 16 by 16 pixels.
pub proof fn lemma_reply(acknowledged: bool, m: Seq<u32>)
    requires
        same_tags(m),
    ensures
        ({
            let fb = reply_fb(m);
            &&& has_framebuffer(acknowledged, m) <==> acknowledged && value_of(m, 0x0004_8005, 0)
                == 32 && value_of(m, 0x0004_0001, 0) != 0
            &&& fb.base == value_of(m, 0x0004_0001, 0) % 0x4000_0000
            &&& fb.width == value_of(m, 0x0004_8004, 0)
            &&& fb.height == value_of(m, 0x0004_8004, 1)
            &&& fb.pitch == value_of(m, 0x0004_0008, 0)
            &&& 16 * fb.cols <= fb.width < 16 * (fb.cols + 1)
            &&& 16 * fb.rows <= fb.height < 16 * (fb.rows + 1)
            &&& fb.col == 0 && fb.row == 0
        }),
{
    lemma_tags(m);
    let a = m[28];
    assert(a & 0x3FFF_FFFF == a % 0x4000_0000) by (bit_vector);
}

} // verus!
