//! What the text console shows, as lines of characters.
use vstd::prelude::*;
use crate::glyph::{Font, char_pixel, glyph, in_cell, lit, lemma_position};
use crate::framebuffer::{Fb, Screen, BG, FG, CELL, SCALE, cleared, with_char, scrolled, typed, kept_visible, put_byte, put_bytes};

verus! {

/// Lines of cells. A cell is blank or shows a character.
pub type Text = Seq<Seq<Option<u8>>>;

/// The text has the size of the console.
pub open spec fn sized(fb: Fb, text: Text) -> bool {
    &&& text.len() == fb.rows
    &&& forall|r: int| 0 <= r < text.len() ==> (#[trigger] text[r]).len() == fb.cols
}

/// Whether the pixel `n` from the left is set in a line of a bitmap.
pub open spec fn is_set(line: u8, n: int) -> bool {
    (if n == 0 {
        line / 128
    } else if n == 1 {
        line / 64
    } else if n == 2 {
        line / 32
    } else if n == 3 {
        line / 16
    } else if n == 4 {
        line / 8
    } else if n == 5 {
        line / 4
    } else if n == 6 {
        line / 2
    } else {
        line
    }) % 2 == 1
}

/// What a cell looks like at (x, y): a blank one is dark navy, and a character is white
/// on it, two pixels wide and high for each bit of its bitmap. What is no printable
/// ASCII character looks like a space.
pub open spec fn cell_pixel(font: Font, cell: Option<u8>, x: int, y: int) -> u32 {
    match cell {
        None => 0xFF1A_1A2E,
        Some(c) => {
            let bitmap = font@[if 0x20 <= c <= 0x7F {
                c - 0x20
            } else {
                0
            }]@;
            if is_set(bitmap[y % 16 / 2], x % 16 / 2) {
                0xFFFF_FFFF
            } else {
                0xFF1A_1A2E
            }
        },
    }
}

/// Where the bits of a bitmap are.
pub proof fn lemma_bitmap(font: Font, c: u8, gx: int, gy: int)
    requires
        0 <= gx < 8,
    ensures
        lit(font, c, gx, gy) == is_set(glyph(font, c)[gy], gx),
{
    let line = glyph(font, c)[gy];
    assert((line & (0x80u8 >> 0u8) != 0 <==> line / 128 % 2 == 1) && (line & (0x80u8 >> 1u8) != 0
        <==> line / 64 % 2 == 1) && (line & (0x80u8 >> 2u8) != 0 <==> line / 32 % 2 == 1) && (line
        & (0x80u8 >> 3u8) != 0 <==> line / 16 % 2 == 1) && (line & (0x80u8 >> 4u8) != 0 <==> line
        / 8 % 2 == 1) && (line & (0x80u8 >> 5u8) != 0 <==> line / 4 % 2 == 1) && (line & (0x80u8
        >> 6u8) != 0 <==> line / 2 % 2 == 1) && (line & (0x80u8 >> 7u8) != 0 <==> line % 2 == 1))
        by (bit_vector);
}

proof fn lemma_cell_pixel(font: Font, c: u8, col: int, row: int, x: int, y: int)
    requires
        x / 16 == col,
        y / 16 == row,
    ensures
        char_pixel(font, c, col, row, 2, FG, BG, x, y) == cell_pixel(font, Some(c), x, y),
{
    let gx = x % 16 / 2;
    let gy = y % 16 / 2;
    assert(8 * 2int * col == 16 * col && 8 * 2int * row == 16 * row);
    assert((x - 16 * col) / 2 == gx && (y - 16 * row) / 2 == gy);
    lemma_bitmap(font, c, gx, gy);
}

/// The pixel at (x, y).
pub open spec fn pixel(s: Screen, x: int, y: int) -> u32 {
    s.px[y * s.fb.geometry().stride() + x]
}

/// The display shows the text: each cell its character, and the lines of pixels below
/// the last line of cells nothing.
pub open spec fn shows(s: Screen, font: Font, text: Text) -> bool {
    &&& s.fb.wf()
    &&& s.px.len() == s.fb.geometry().area()
    &&& sized(s.fb, text)
    &&& forall|x: int, y: int|
        0 <= x < 16 * s.fb.cols && 0 <= y < s.fb.height ==> #[trigger] pixel(s, x, y) == (if y
            < 16 * s.fb.rows {
            cell_pixel(font, text[y / 16][x / 16], x, y)
        } else {
            0xFF1A_1A2E
        })
}

/// A line of blank cells.
pub open spec fn blank_line(cols: nat) -> Seq<Option<u8>> {
    Seq::new(cols, |i: int| None::<u8>)
}

pub open spec fn blank_text(fb: Fb) -> Text {
    Seq::new(fb.rows as nat, |i: int| blank_line(fb.cols as nat))
}

/// The text with one cell changed, if there is such a cell.
pub open spec fn with_cell(text: Text, row: int, col: int, c: u8) -> Text {
    if col < text[row].len() {
        text.update(row, text[row].update(col, Some(c)))
    } else {
        text
    }
}

/// The text moved up by a line; a display that is a single line high does not move.
pub open spec fn moved_up(fb: Fb, text: Text) -> Text {
    if fb.height <= CELL {
        text
    } else {
        text.drop_first().push(blank_line(fb.cols as nat))
    }
}

/// A line further: the text moves up if the cursor was in the last line.
pub open spec fn next_line(fb: Fb, text: Text) -> Text {
    if fb.row + 1 >= fb.rows {
        moved_up(fb, text)
    } else {
        text
    }
}

/// The text after a byte.
pub open spec fn text_put(fb: Fb, text: Text, c: u8) -> Text {
    let (row, col) = (fb.row as int, fb.col as int);
    if c == 0x0A {
        next_line(fb, text)
    } else if c == 0x0D {
        text
    } else if c == 0x08 || c == 0x7F {
        if col > 0 {
            with_cell(text, row, col - 1, 0x20)
        } else {
            text
        }
    } else if col + 1 >= fb.cols {
        next_line(fb, with_cell(text, row, col, c))
    } else {
        with_cell(text, row, col, c)
    }
}

proof fn lemma_pixel_index(fb: Fb, x: int, y: int)
    requires
        fb.wf(),
        0 <= x < 16 * fb.cols,
        0 <= y < fb.height,
    ensures
        ({
            let s = fb.geometry().stride();
            &&& 0 <= y * s + x < fb.geometry().area()
            &&& (y * s + x) / s == y
            &&& (y * s + x) % s == x
            &&& x < fb.width
        }),
{
    lemma_position(fb.geometry(), x, y);
}

/// Drawing a character changes its cell and no other.
proof fn lemma_draw_shows(s: Screen, font: Font, text: Text, c: u8, col: int, row: int)
    requires
        shows(s, font, text),
        0 <= row < s.fb.rows,
        0 <= col,
        col < s.fb.cols || s.fb.cols == 0,
    ensures
        shows(
            Screen { px: with_char(s.px, s.fb, font, c, col, row), fb: s.fb },
            font,
            with_cell(text, row, col, c),
        ),
{
    let t = Screen { px: with_char(s.px, s.fb, font, c, col, row), fb: s.fb };
    let new = with_cell(text, row, col, c);
    let g = s.fb.geometry();
    assert(8 * (SCALE as int) * col == 16 * col && 8 * (SCALE as int) * row == 16 * row)
        by (nonlinear_arith)
        requires
            SCALE == 2,
    ;
    assert forall|r: int| 0 <= r < new.len() implies (#[trigger] new[r]).len() == s.fb.cols by {
        assert(text[r].len() == s.fb.cols);
    }
    assert forall|x: int, y: int|
        0 <= x < 16 * s.fb.cols && 0 <= y < s.fb.height implies #[trigger] pixel(t, x, y) == (if y
        < 16 * s.fb.rows {
        cell_pixel(font, new[y / 16][x / 16], x, y)
    } else {
        BG
    }) by {
        lemma_pixel_index(s.fb, x, y);
        let was = pixel(s, x, y);
        assert(text[row].len() == s.fb.cols);
        if in_cell(g, col, row, SCALE as int, x, y) {
            assert(x / 16 == col && y / 16 == row);
            lemma_cell_pixel(font, c, col, row, x, y);
        } else {
            assert(pixel(t, x, y) == was);
            if y < 16 * s.fb.rows {
                assert(x / 16 != col || y / 16 != row);
                assert(text[y / 16].len() == s.fb.cols);
            }
        }
    }
}

/// Scrolling moves every line of cells up by one and leaves the last one blank.
proof fn lemma_scroll_shows(s: Screen, font: Font, text: Text)
    requires
        shows(s, font, text),
    ensures
        shows(Screen { px: scrolled(s.px, s.fb), fb: s.fb }, font, moved_up(s.fb, text)),
{
    let fb = s.fb;
    let t = Screen { px: scrolled(s.px, fb), fb };
    let new = moved_up(fb, text);
    if fb.height > CELL {
        let stride = fb.geometry().stride();
        assert forall|r: int| 0 <= r < new.len() implies (#[trigger] new[r]).len() == fb.cols by {
            if r < fb.rows - 1 {
                assert(new[r] == text[r + 1]);
            }
        }
        assert forall|x: int, y: int|
            0 <= x < 16 * fb.cols && 0 <= y < fb.height implies #[trigger] pixel(t, x, y) == (if y
            < 16 * fb.rows {
            cell_pixel(font, new[y / 16][x / 16], x, y)
        } else {
            BG
        }) by {
            lemma_pixel_index(fb, x, y);
            let h = fb.height as int;
            if y < h - 16 {
                lemma_pixel_index(fb, x, y + 16);
                assert(y * stride + x < (h - 16) * stride && y * stride + x + 16 * stride == (y
                    + 16) * stride + x) by (nonlinear_arith)
                    requires
                        0 <= y < h - 16,
                        0 <= x < stride,
                ;
                assert(pixel(t, x, y) == pixel(s, x, y + 16));
                let r = y / 16;
                assert((y + 16) / 16 == r + 1);
                if y + 16 < 16 * fb.rows {
                    assert(new[r] == text[r + 1]);
                    assert(8 * 2int * (r + 1) == 16 * (r + 1) && 8 * 2int * r == 16 * r);
                }
            } else {
                assert((h - 16) * stride <= y * stride + x) by (nonlinear_arith)
                    requires
                        h - 16 <= y,
                        0 <= x < stride,
                ;
            }
        }
    }
}

/// The console shows a blank text once it was cleared.
pub proof fn lemma_clear_shows(s: Screen, font: Font)
    requires
        s.fb.wf(),
        s.px.len() == s.fb.geometry().area(),
    ensures
        shows(
            Screen { px: cleared(s.px), fb: Fb { col: 0, row: 0, ..s.fb } },
            font,
            blank_text(s.fb),
        ),
{
    let t = Screen { px: cleared(s.px), fb: Fb { col: 0, row: 0, ..s.fb } };
    assert forall|x: int, y: int|
        0 <= x < 16 * t.fb.cols && 0 <= y < t.fb.height implies #[trigger] pixel(t, x, y) == BG by {
        lemma_pixel_index(t.fb, x, y);
    }
}

/// A byte that is written changes the shown text as a terminal does: characters appear
/// at the cursor, lines wrap, and the text moves up at the bottom of the display.
pub proof fn lemma_byte_shows(s: Screen, font: Font, text: Text, c: u8)
    requires
        shows(s, font, text),
    ensures
        shows(put_byte(s, font, c), font, text_put(s.fb, text, c)),
{
    let fb = s.fb;
    let (row, col) = (fb.row as int, fb.col as int);
    let t = typed(s, font, c);
    let (mid, moves) = if c == 0x0A {
        (text, true)
    } else if c == 0x0D {
        (text, false)
    } else if c == 0x08 || c == 0x7F {
        if col > 0 {
            lemma_draw_shows(s, font, text, 0x20, col - 1, row);
            (with_cell(text, row, col - 1, 0x20), false)
        } else {
            (text, false)
        }
    } else {
        lemma_draw_shows(s, font, text, c, col, row);
        (with_cell(text, row, col, c), col + 1 >= fb.cols)
    };
    let u = Screen { px: t.px, fb };
    assert(shows(u, font, mid));
    if moves && row + 1 >= fb.rows {
        lemma_scroll_shows(u, font, mid);
        let v = Screen { px: scrolled(t.px, fb), fb };
        let w = kept_visible(t);
        assert(scrolled(t.px, t.fb) == scrolled(t.px, fb));
        assert forall|x: int, y: int| #[trigger] pixel(w, x, y) == pixel(v, x, y) by {}
    } else {
        assert forall|x: int, y: int| #[trigger] pixel(t, x, y) == pixel(u, x, y) by {}
    }
}

/// The text after some bytes.
pub open spec fn text_put_all(s: Screen, font: Font, text: Text, bytes: Seq<u8>) -> Text
    decreases bytes.len(),
{
    if bytes.len() == 0 {
        text
    } else {
        text_put_all(
            put_byte(s, font, bytes[0]),
            font,
            text_put(s.fb, text, bytes[0]),
            bytes.drop_first(),
        )
    }
}

/// After any bytes the display shows what a terminal would.
pub proof fn lemma_bytes_show(s: Screen, font: Font, text: Text, bytes: Seq<u8>)
    requires
        shows(s, font, text),
    ensures
        shows(put_bytes(s, font, bytes), font, text_put_all(s, font, text, bytes)),
    decreases bytes.len(),
{
    if bytes.len() > 0 {
        lemma_byte_shows(s, font, text, bytes[0]);
        lemma_bytes_show(
            put_byte(s, font, bytes[0]),
            font,
            text_put(s.fb, text, bytes[0]),
            bytes.drop_first(),
        );
    }
}

/// Backspace, space, backspace takes the character before the cursor off the display.
pub proof fn lemma_erase_shows(s: Screen, font: Font, text: Text)
    requires
        shows(s, font, text),
        s.fb.col > 0,
    ensures
        ({
            let after = put_bytes(s, font, seq![0x08u8, 0x20u8, 0x08u8]);
            let col = s.fb.col - 1;
            &&& after.fb == (Fb { col: col as u32, ..s.fb })
            &&& shows(after, font, with_cell(text, s.fb.row as int, col, 0x20))
        }),
{
    let s1 = put_byte(s, font, 0x08);
    let t1 = text_put(s.fb, text, 0x08);
    lemma_byte_shows(s, font, text, 0x08);
    let s2 = put_byte(s1, font, 0x20);
    let t2 = text_put(s1.fb, t1, 0x20);
    lemma_byte_shows(s1, font, t1, 0x20);
    let s3 = put_byte(s2, font, 0x08);
    let t3 = text_put(s2.fb, t2, 0x08);
    lemma_byte_shows(s2, font, t2, 0x08);
    let bytes = seq![0x08u8, 0x20u8, 0x08u8];
    assert(bytes.drop_first() =~= seq![0x20u8, 0x08u8]);
    assert(bytes.drop_first().drop_first() =~= seq![0x08u8]);
    assert(bytes.drop_first().drop_first().drop_first() =~= Seq::empty());
    reveal_with_fuel(put_bytes, 4);
    assert(text[s.fb.row as int].len() == s.fb.cols);
    assert(t3 =~= with_cell(text, s.fb.row as int, s.fb.col - 1, 0x20)) by {
        let row = s.fb.row as int;
        assert(t3[row] =~= with_cell(text, row, s.fb.col - 1, 0x20)[row]);
    }
}

// ── A terminal ─────────────────────────────────────────────────────────────

/// A terminal: its text and its cursor.
pub struct Terminal {
    pub text: Text,
    pub row: int,
    pub col: int,
}

/// The start of the next line; below the last line there is none, so the text moves up,
/// on a display that is more than one line high.
pub open spec fn new_line(t: Terminal, cols: nat, rows: int, tall: bool) -> Terminal {
    if t.row + 1 < rows {
        Terminal { row: t.row + 1, col: 0, ..t }
    } else if tall {
        Terminal { text: t.text.skip(1).push(Seq::new(cols, |i: int| None::<u8>)), col: 0, ..t }
    } else {
        Terminal { col: 0, ..t }
    }
}

/// What a byte does: 10 starts a new line, 13 goes back to the start of this one, 8 and
/// 127 go back by a cell and blank it, and everything else is put into a cell.
pub open spec fn terminal_put(t: Terminal, cols: nat, rows: int, tall: bool, c: u8) -> Terminal {
    if c == 10 {
        new_line(t, cols, rows, tall)
    } else if c == 13 {
        Terminal { col: 0, ..t }
    } else if c == 8 || c == 127 {
        if t.col == 0 {
            t
        } else {
            Terminal {
                text: t.text.update(t.row, t.text[t.row].update(t.col - 1, Some(0x20u8))),
                col: t.col - 1,
                ..t
            }
        }
    } else {
        let put = Terminal {
            text: t.text.update(t.row, t.text[t.row].update(t.col, Some(c))),
            col: t.col + 1,
            ..t
        };
        if put.col == cols {
            new_line(put, cols, rows, tall)
        } else {
            put
        }
    }
}

pub open spec fn terminal_put_all(
    t: Terminal,
    cols: nat,
    rows: int,
    tall: bool,
    bytes: Seq<u8>,
) -> Terminal
    decreases bytes.len(),
{
    if bytes.len() == 0 {
        t
    } else {
        terminal_put_all(
            terminal_put(t, cols, rows, tall, bytes[0]),
            cols,
            rows,
            tall,
            bytes.drop_first(),
        )
    }
}

/// The display shows the terminal, and their cursors are at the same place.
pub open spec fn is_terminal(s: Screen, font: Font, t: Terminal) -> bool {
    &&& shows(s, font, t.text)
    &&& s.fb.row == t.row
    &&& s.fb.col == t.col
}

/// Whatever is written, the display stays that of a terminal with as many lines and
/// columns as cells of 16 by 16 pixels fit on it.
pub proof fn lemma_display_is_a_terminal(s: Screen, font: Font, t: Terminal, bytes: Seq<u8>)
    requires
        is_terminal(s, font, t),
        s.fb.width >= 16,
    ensures
        is_terminal(
            put_bytes(s, font, bytes),
            font,
            terminal_put_all(
                t,
                (s.fb.width / 16) as nat,
                s.fb.height as int / 16,
                s.fb.height > 16,
                bytes,
            ),
        ),
        put_bytes(s, font, bytes).fb.geometry() == s.fb.geometry(),
        put_bytes(s, font, bytes).fb.base == s.fb.base,
    decreases bytes.len(),
{
    if bytes.len() > 0 {
        let c = bytes[0];
        let cols = (s.fb.width / 16) as nat;
        let rows = s.fb.height as int / 16;
        let tall = s.fb.height > 16;
        let next = terminal_put(t, cols, rows, tall, c);
        lemma_byte_shows(s, font, t.text, c);
        assert(t.text[t.row].len() == cols);
        assert(t.text.drop_first() =~= t.text.skip(1));
        let text = text_put(s.fb, t.text, c);
        if c != 10 && c != 13 && c != 8 && c != 127 {
            let put = t.text.update(t.row, t.text[t.row].update(t.col, Some(c)));
            assert(with_cell(t.text, t.row, t.col, c) =~= put);
            assert(put.drop_first() =~= put.skip(1));
        }
        assert(text =~= next.text);
        lemma_display_is_a_terminal(put_byte(s, font, c), font, next, bytes.drop_first());
    }
}

} // verus!
