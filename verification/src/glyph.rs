//! Characters on a framebuffer.
//!
//! A framebuffer is a sequence of pixels, one line after the other; a line may be
//! longer than what is shown of it. A character is drawn from an eight by eight
//! bitmap, each bit of it as a square of `scale` by `scale` pixels.
use vstd::prelude::*;
use vstd::arithmetic::div_mod::{lemma_fundamental_div_mod, lemma_fundamental_div_mod_converse};

verus! {

/// The bitmaps of the characters from 0x20 to 0x7F: a byte for each of eight lines,
/// the leftmost pixel in the highest bit.
pub type Font = [[u8; 8]; 96];

/// The layout of a framebuffer.
#[derive(Clone, Copy, PartialEq, Eq, Structural, Debug)]
pub struct Geometry {
    /// Shown pixels in a line.
    pub width: u32,
    /// Lines.
    pub height: u32,
    /// Bytes in a line.
    pub pitch: u32,
}

impl Geometry {
    /// Pixels in a line.
    pub open spec fn stride(self) -> int {
        self.pitch as int / 4
    }

    /// Pixels in all.
    pub open spec fn area(self) -> int {
        self.stride() * self.height
    }

    /// A line is made of whole pixels and holds all that is shown of it, and the size
    /// of the framebuffer is a 32-bit number.
    pub open spec fn wf(self) -> bool {
        &&& self.pitch % 4 == 0
        &&& self.width <= self.stride()
        &&& self.pitch * self.height <= u32::MAX
    }

    /// Tells whether the layout is sound.
    pub fn is_sound(&self) -> (r: bool)
        ensures
            r == self.wf(),
    {
        assert(0 <= self.pitch * self.height <= u64::MAX) by (nonlinear_arith)
            requires
                0 <= self.pitch <= u32::MAX,
                0 <= self.height <= u32::MAX,
        ;
        self.pitch % 4 == 0 && self.width <= self.pitch / 4 && self.pitch as u64 * self.height as u64
            <= u32::MAX as u64
    }

    /// Pixels in all.
    pub fn pixels(&self) -> (n: usize)
        requires
            self.wf(),
        ensures
            n == self.area(),
    {
        proof {
            lemma_area(*self);
        }
        (self.pitch / 4) as usize * self.height as usize
    }
}

pub proof fn lemma_area(g: Geometry)
    requires
        g.wf(),
    ensures
        0 <= g.area() <= u32::MAX,
        4 * g.area() == g.pitch * g.height,
{
    let s = g.stride();
    let h = g.height as int;
    assert(4 * (s * h) == g.pitch * h && 0 <= s * h) by (nonlinear_arith)
        requires
            g.pitch == 4 * s,
            0 <= h,
            0 <= s,
    ;
}

/// The position of a pixel in the framebuffer.
pub proof fn lemma_position(g: Geometry, x: int, y: int)
    requires
        0 <= x < g.stride(),
        0 <= y < g.height,
    ensures
        0 <= y * g.stride() + x < g.area(),
        (y * g.stride() + x) / g.stride() == y,
        (y * g.stride() + x) % g.stride() == x,
{
    let s = g.stride();
    lemma_fundamental_div_mod_converse(y * s + x, s, y, x);
    assert(0 <= y * s && y * s + s <= s * g.height) by (nonlinear_arith)
        requires
            0 <= y < g.height,
            0 < s,
    ;
}

/// The bitmap of a character; characters without one look like a space.
pub open spec fn glyph(font: Font, c: u8) -> Seq<u8> {
    font@[if 0x20 <= c <= 0x7F {
        c - 0x20
    } else {
        0
    }]@
}

/// Bit (gx, gy) of a character is set.
pub open spec fn lit(font: Font, c: u8, gx: int, gy: int) -> bool {
    glyph(font, c)[gy] & (0x80u8 >> gx) != 0
}

/// What the framebuffer shows at (x, y) of the character at column `col` and row
/// `row`.
pub open spec fn char_pixel(
    font: Font,
    c: u8,
    col: int,
    row: int,
    scale: int,
    fg: u32,
    bg: u32,
    x: int,
    y: int,
) -> u32 {
    if lit(font, c, (x - 8 * scale * col) / scale, (y - 8 * scale * row) / scale) {
        fg
    } else {
        bg
    }
}

/// The pixel at (x, y) is shown and belongs to the character cell at column `col` and
/// row `row`.
pub open spec fn in_cell(g: Geometry, col: int, row: int, scale: int, x: int, y: int) -> bool {
    &&& x < g.width
    &&& y < g.height
    &&& 8 * scale * col <= x < 8 * scale * col + 8 * scale
    &&& 8 * scale * row <= y < 8 * scale * row + 8 * scale
}

/// The framebuffer with a character drawn into a cell.
pub open spec fn drawn(
    px: Seq<u32>,
    g: Geometry,
    font: Font,
    c: u8,
    col: int,
    row: int,
    scale: int,
    fg: u32,
    bg: u32,
) -> Seq<u32> {
    Seq::new(
        px.len(),
        |i: int|
            {
                let x = i % g.stride();
                let y = i / g.stride();
                if in_cell(g, col, row, scale, x, y) {
                    char_pixel(font, c, col, row, scale, fg, bg, x, y)
                } else {
                    px[i]
                }
            },
    )
}

/// The pixels of a cell up to pixel `dx` of its line `dy`.
spec fn reached(
    g: Geometry,
    col: int,
    row: int,
    scale: int,
    dx: int,
    dy: int,
    x: int,
    y: int,
) -> bool {
    &&& in_cell(g, col, row, scale, x, y)
    &&& y < 8 * scale * row + dy || (y == 8 * scale * row + dy && x < 8 * scale * col + dx)
}

spec fn partly_drawn(
    px: Seq<u32>,
    g: Geometry,
    font: Font,
    c: u8,
    col: int,
    row: int,
    scale: int,
    fg: u32,
    bg: u32,
    dx: int,
    dy: int,
) -> Seq<u32> {
    Seq::new(
        px.len(),
        |i: int|
            {
                let x = i % g.stride();
                let y = i / g.stride();
                if reached(g, col, row, scale, dx, dy, x, y) {
                    char_pixel(font, c, col, row, scale, fg, bg, x, y)
                } else {
                    px[i]
                }
            },
    )
}

/// Draws one more pixel of a cell.
proof fn lemma_next_pixel(
    before: Seq<u32>,
    now: Seq<u32>,
    g: Geometry,
    font: Font,
    c: u8,
    col: int,
    row: int,
    scale: int,
    fg: u32,
    bg: u32,
    dx: int,
    dy: int,
)
    requires
        g.wf(),
        before.len() == g.area(),
        0 <= col,
        0 <= row,
        0 < scale,
        0 <= dx < 8 * scale,
        0 <= dy < 8 * scale,
        ({
            let x = 8 * scale * col + dx;
            let y = 8 * scale * row + dy;
            let was = partly_drawn(before, g, font, c, col, row, scale, fg, bg, dx, dy);
            if x < g.width && y < g.height {
                now == was.update(
                    y * g.stride() + x,
                    char_pixel(font, c, col, row, scale, fg, bg, x, y),
                )
            } else {
                now == was
            }
        }),
    ensures
        now == partly_drawn(before, g, font, c, col, row, scale, fg, bg, dx + 1, dy),
{
    let s = g.stride();
    let x0 = 8 * scale * col + dx;
    let y0 = 8 * scale * row + dy;
    let goal = partly_drawn(before, g, font, c, col, row, scale, fg, bg, dx + 1, dy);
    assert(0 <= 8 * scale * col && 0 <= 8 * scale * row) by (nonlinear_arith)
        requires
            0 <= col,
            0 <= row,
            0 < scale,
    ;
    if x0 < g.width && y0 < g.height {
        lemma_position(g, x0, y0);
    }
    assert forall|i: int| 0 <= i < before.len() implies #[trigger] now[i] == goal[i] by {
        let x = i % s;
        let y = i / s;
        if s > 0 {
            lemma_fundamental_div_mod(i, s);
            assert(s * y == y * s) by (nonlinear_arith);
        }
        if reached(g, col, row, scale, dx + 1, dy, x, y) && !reached(
            g,
            col,
            row,
            scale,
            dx,
            dy,
            x,
            y,
        ) {
            assert(x == x0 && y == y0);
        }
    }
    assert(now =~= goal);
}

fn glyph_line(font: &Font, c: u8, gy: usize) -> (line: u8)
    requires
        gy < 8,
    ensures
        line == glyph(*font, c)[gy as int],
{
    let idx: usize = if c >= 0x20 && c <= 0x7F {
        (c - 0x20) as usize
    } else {
        0
    };
    font[idx][gy]
}

/// Draws a character into a cell. Pixels outside what is shown are left out.
pub fn draw_char(
    px: &mut [u32],
    g: &Geometry,
    font: &Font,
    c: u8,
    col: u32,
    row: u32,
    scale: u32,
    fg: u32,
    bg: u32,
)
    requires
        g.wf(),
        old(px)@.len() == g.area(),
        0 < scale <= 16,
    ensures
        final(px)@ == drawn(
            old(px)@,
            *g,
            *font,
            c,
            col as int,
            row as int,
            scale as int,
            fg,
            bg,
        ),
{
    let ghost before = px@;
    let ghost s = g.stride();
    let ghost (cc, rr, sc) = (col as int, row as int, scale as int);
    let cell: u64 = 8 * scale as u64;
    assert(0 <= cell * col <= 0x80_0000_0000 && 0 <= cell * row <= 0x80_0000_0000)
        by (nonlinear_arith)
        requires
            0 <= cell <= 128,
            0 <= col <= u32::MAX,
            0 <= row <= u32::MAX,
    ;
    let ox: u64 = cell * col as u64;
    let oy: u64 = cell * row as u64;
    let stride: u64 = (g.pitch / 4) as u64;
    let mut dy: u64 = 0;
    assert(px@ =~= partly_drawn(before, *g, *font, c, cc, rr, sc, fg, bg, 0, 0));
    while dy < cell
        invariant
            g.wf(),
            before.len() == g.area(),
            px@.len() == before.len(),
            before == old(px)@,
            0 < scale <= 16,
            cell == 8 * scale,
            cc == col,
            rr == row,
            sc == scale,
            ox == 8 * sc * cc,
            oy == 8 * sc * rr,
            ox <= 0x80_0000_0000,
            oy <= 0x80_0000_0000,
            stride == g.stride(),
            dy <= cell,
            px@ == partly_drawn(before, *g, *font, c, cc, rr, sc, fg, bg, 0, dy as int),
        decreases cell - dy,
    {
        let y: u64 = oy + dy;
        let gy: u64 = dy / scale as u64;
        assert(gy < 8) by (nonlinear_arith)
            requires
                gy == dy as int / sc,
                dy < 8 * sc,
                0 < sc,
        ;
        let line: u8 = glyph_line(font, c, gy as usize);
        let mut dx: u64 = 0;
        while dx < cell
            invariant
                g.wf(),
                before.len() == g.area(),
                px@.len() == before.len(),
                before == old(px)@,
                0 < scale <= 16,
                cell == 8 * scale,
                cc == col,
                rr == row,
                sc == scale,
                ox == 8 * sc * cc,
                oy == 8 * sc * rr,
                ox <= 0x80_0000_0000,
                oy <= 0x80_0000_0000,
                stride == g.stride(),
                dy < cell,
                y == oy + dy,
                gy == dy as int / sc,
                gy < 8,
                line == glyph(*font, c)[gy as int],
                dx <= cell,
                px@ == partly_drawn(
                    before,
                    *g,
                    *font,
                    c,
                    cc,
                    rr,
                    sc,
                    fg,
                    bg,
                    dx as int,
                    dy as int,
                ),
            decreases cell - dx,
        {
            let x: u64 = ox + dx;
            let gx: u64 = dx / scale as u64;
            assert(gx < 8) by (nonlinear_arith)
                requires
                    gx == dx as int / sc,
                    dx < 8 * sc,
                    0 < sc,
            ;
            if x < g.width as u64 && y < g.height as u64 {
                proof {
                    lemma_position(*g, x as int, y as int);
                    lemma_area(*g);
                }
                let pixel: u32 = if line & (0x80u8 >> (gx as u8)) != 0 {
                    fg
                } else {
                    bg
                };
                assert(0 <= y * stride <= u32::MAX);
                px[(y * stride + x) as usize] = pixel;
            }
            proof {
                lemma_next_pixel(
                    before,
                    px@,
                    *g,
                    *font,
                    c,
                    cc,
                    rr,
                    sc,
                    fg,
                    bg,
                    dx as int,
                    dy as int,
                );
            }
            dx = dx + 1;
        }
        dy = dy + 1;
        assert(px@ =~= partly_drawn(before, *g, *font, c, cc, rr, sc, fg, bg, 0, dy as int));
    }
    assert(px@ =~= drawn(before, *g, *font, c, cc, rr, sc, fg, bg));
}

/// Paints everything in one colour.
pub fn fill(px: &mut [u32], color: u32)
    ensures
        final(px)@ == Seq::new(old(px)@.len(), |i: int| color),
{
    let n: usize = px.len();
    let mut i: usize = 0;
    while i < n
        invariant
            i <= n,
            n == px@.len(),
            n == old(px)@.len(),
            forall|j: int| 0 <= j < i ==> px@[j] == color,
        decreases n - i,
    {
        px[i] = color;
        i = i + 1;
    }
    assert(px@ =~= Seq::new(n as nat, |i: int| color));
}

} // verus!
