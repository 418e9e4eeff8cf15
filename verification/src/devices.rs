//! Models of the UART, the pins and the GPU's mailbox, and what the drivers achieve
//! with them.
use vstd::prelude::*;
use crate::board::Board;
use crate::session::{RegOp, RegRun, op_run, batch_run, cons, ends_with_device, state_after, lemma_device_batch, lemma_device_end, lemma_device_op, lemma_device_step, lemma_device_then};
use crate::uart::{putc_run, send_run, puts_run, crlf, getc_run, getc_nonblocking_run, receive_run, init_ops};
use crate::gpio::{init_led_run, blink_run, blink_round};
use crate::kernel::{panic_round_run, panic_long_run, panic_short_run, panic_pause_run};
use crate::mailbox::{call_run, room_run, post_run, wait_run, reply_run, code_run};

verus! {

broadcast use crate::session::lemma_cons;

/// Where the peripherals of a board lie.
pub open spec fn at(board: Board, offset: int) -> u64 {
    (offset + match board {
        Board::Rpi3 => 0x3F00_0000int,
        Board::Rpi4 => 0xFE00_0000int,
    }) as u64
}

// ── The serial line ────────────────────────────────────────────────────────

/// The UART, with what has gone out over the line and what comes in.
pub struct Serial {
    pub sent: Seq<u8>,
    /// Looks at the flags until there is room for a byte.
    pub full: nat,
    /// The bytes that come in.
    pub coming: Seq<u8>,
    /// Looks at the flags until the next of them has come.
    pub late: nat,
}

/// The flags: bit 5 while there is no room, bit 4 while nothing has come in.
pub open spec fn serial_flags(s: Serial) -> u32 {
    (if s.full > 0 {
        0x20u32
    } else {
        0u32
    }) | (if s.coming.len() == 0 || s.late > 0 {
        0x10u32
    } else {
        0u32
    })
}

pub open spec fn sooner(n: nat) -> nat {
    if n > 0 {
        (n - 1) as nat
    } else {
        0
    }
}

/// A UART that has no room for `slow` looks after each byte, and puts `noise` above the
/// bytes that come in. A byte for which there is no room is lost.
pub open spec fn serial(board: Board, slow: nat, noise: u32) -> spec_fn(Serial, RegOp) -> (
    u32,
    Serial,
) {
    |s: Serial, op: RegOp|
        match op {
            RegOp::Read(a) => if a == at(board, 0x20_1018) {
                (serial_flags(s), Serial { full: sooner(s.full), late: sooner(s.late), ..s })
            } else if a == at(board, 0x20_1000) && s.coming.len() > 0 && s.late == 0 {
                (
                    (s.coming[0] + 0x100 * (noise % 16)) as u32,
                    Serial { coming: s.coming.drop_first(), ..s },
                )
            } else {
                (0, s)
            },
            RegOp::Write(a, v) => if a == at(board, 0x20_1000) && s.full == 0 {
                (0, Serial { sent: s.sent.push((v % 0x100) as u8), full: slow, ..s })
            } else {
                (0, s)
            },
            _ => (0, s),
        }
}

proof fn lemma_flags(s: Serial)
    ensures
        serial_flags(s) & 0x20 != 0 <==> s.full > 0,
        serial_flags(s) & 0x10 != 0 <==> s.coming.len() == 0 || s.late > 0,
{
    let a = s.full > 0;
    let b = s.coming.len() == 0 || s.late > 0;
    let x = (if a {
        0x20u32
    } else {
        0u32
    }) | (if b {
        0x10u32
    } else {
        0u32
    });
    assert((x & 0x20 != 0 <==> a) && (x & 0x10 != 0 <==> b)) by (bit_vector)
        requires
            x == (if a {
                0x20u32
            } else {
                0u32
            }) | (if b {
                0x10u32
            } else {
                0u32
            }),
    ;
}

/// The state after a byte was sent.
pub open spec fn after_byte(s: Serial, slow: nat, c: u8) -> Serial {
    Serial {
        sent: s.sent.push(c),
        full: slow,
        late: if s.late > s.full + 1 {
            (s.late - s.full - 1) as nat
        } else {
            0
        },
        ..s
    }
}

/// A byte goes out once there is room for it.
pub proof fn lemma_byte_goes_out(board: Board, slow: nat, noise: u32, s: Serial, c: u8)
    ensures
        ends_with_device(
            |h: Seq<u32>| putc_run(board, c, h),
            serial(board, slow, noise),
            s,
            (),
            after_byte(s, slow, c),
        ),
    decreases s.full,
{
    let device = serial(board, slow, noise);
    let script = |h: Seq<u32>| putc_run(board, c, h);
    let look = RegOp::Read(at(board, 0x20_1018));
    let r = serial_flags(s);
    let s1 = Serial { full: sooner(s.full), late: sooner(s.late), ..s };
    let t = after_byte(s, slow, c);
    lemma_flags(s);
    assert(script(Seq::empty()) == RegRun::<()>::Wants(look));
    assert(device(s, look) == (r, s1));
    if s.full > 0 {
        lemma_byte_goes_out(board, slow, noise, s1, c);
        assert(after_byte(s1, slow, c) == t);
        assert forall|g: Seq<u32>| #[trigger] script(g) == script(cons(r, g)) by {}
        lemma_device_step(script, script, device, look, s, (), t);
    } else {
        let write = RegOp::Write(at(board, 0x20_1000), c as u32);
        let send = |h: Seq<u32>| send_run(board, c, h);
        let end = |h: Seq<u32>| RegRun::<()>::Finished((), h);
        assert(device(s1, write).1 == t);
        lemma_device_end(end, device, t, ());
        assert(send(Seq::empty()) == RegRun::<()>::Wants(write));
        assert forall|g: Seq<u32>| #[trigger] end(g) == send(cons(0, g)) by {}
        lemma_device_step(send, end, device, write, s1, (), t);
        assert forall|g: Seq<u32>| #[trigger] send(g) == script(cons(r, g)) by {}
        lemma_device_step(script, send, device, look, s, (), t);
    }
}

/// However slow the line is, bytes that are sent go out all, each once and in order.
pub proof fn lemma_bytes_go_out(board: Board, slow: nat, noise: u32, s: Serial, bytes: Seq<u8>) -> (t:
    Serial)
    ensures
        ends_with_device(
            |h: Seq<u32>| puts_run(board, bytes, h),
            serial(board, slow, noise),
            s,
            (),
            t,
        ),
        t.sent == s.sent + bytes,
        t.coming == s.coming,
    decreases bytes.len(),
{
    let device = serial(board, slow, noise);
    let script = |h: Seq<u32>| puts_run(board, bytes, h);
    if bytes.len() == 0 {
        lemma_device_end(script, device, s, ());
        assert(s.sent + bytes =~= s.sent);
        s
    } else {
        let c = bytes[0];
        let more = bytes.drop_first();
        let s1 = after_byte(s, slow, c);
        lemma_byte_goes_out(board, slow, noise, s, c);
        let t = lemma_bytes_go_out(board, slow, noise, s1, more);
        lemma_device_then(
            device,
            script,
            |h: Seq<u32>| putc_run(board, c, h),
            |_u: (), h: Seq<u32>| puts_run(board, more, h),
            |h: Seq<u32>| puts_run(board, more, h),
            s,
            (),
            s1,
            (),
            t,
        );
        assert(s.sent.push(c) + more =~= s.sent + bytes);
        t
    }
}

/// On the line, text has a carriage return before each line feed, and is otherwise as
/// it was.
pub proof fn lemma_line_ends(a: Seq<u8>, b: Seq<u8>, c: u8)
    ensures
        crlf(Seq::empty()).len() == 0,
        crlf(a + b) == crlf(a) + crlf(b),
        crlf(seq![c]) == if c == 10 {
            seq![13u8, 10u8]
        } else {
            seq![c]
        },
    decreases a.len(),
{
    reveal_with_fuel(crlf, 2);
    assert(seq![c].drop_first() =~= Seq::empty());
    assert(crlf(seq![c]) =~= if c == 10 {
        seq![13u8, 10u8]
    } else {
        seq![c]
    });
    if a.len() == 0 {
        assert(a + b =~= b);
        assert(crlf(a) + crlf(b) =~= crlf(b));
    } else {
        lemma_line_ends(a.drop_first(), b, c);
        assert((a + b).drop_first() =~= a.drop_first() + b);
        assert((a + b)[0] == a[0]);
        assert(crlf(a + b) =~= crlf(a) + crlf(b));
    }
}

proof fn lemma_byte_is_taken(board: Board, slow: nat, noise: u32, s: Serial)
    requires
        s.coming.len() > 0,
        s.late == 0,
    ensures
        ends_with_device(
            |h: Seq<u32>| receive_run(board, h),
            serial(board, slow, noise),
            s,
            s.coming[0],
            (Serial { coming: s.coming.drop_first(), ..s }),
        ),
{
    let device = serial(board, slow, noise);
    let script = |h: Seq<u32>| receive_run(board, h);
    let op = RegOp::Read(at(board, 0x20_1000));
    let t = Serial { coming: s.coming.drop_first(), ..s };
    let c = s.coming[0];
    let v = (c + 0x100 * (noise % 16)) as u32;
    assert(device(s, op) == (v, t));
    assert(v % 0x100 == c);
    let end = |h: Seq<u32>| RegRun::<u8>::Finished(c, h);
    lemma_device_end(end, device, t, c);
    assert forall|g: Seq<u32>| #[trigger] end(g) == script(cons(v, g)) by {}
    lemma_device_step(script, end, device, op, s, c, t);
}

/// However late it comes, the next byte on the line is what is received, and it is taken
/// off the line.
pub proof fn lemma_byte_comes_in(board: Board, slow: nat, noise: u32, s: Serial) -> (t: Serial)
    requires
        s.coming.len() > 0,
    ensures
        ends_with_device(
            |h: Seq<u32>| getc_run(board, h),
            serial(board, slow, noise),
            s,
            s.coming[0],
            t,
        ),
        t.coming == s.coming.drop_first(),
        t.sent == s.sent,
    decreases s.late,
{
    let device = serial(board, slow, noise);
    let script = |h: Seq<u32>| getc_run(board, h);
    let look = RegOp::Read(at(board, 0x20_1018));
    let r = serial_flags(s);
    let s1 = Serial { full: sooner(s.full), late: sooner(s.late), ..s };
    lemma_flags(s);
    assert(device(s, look) == (r, s1));
    assert(script(Seq::empty()) == RegRun::<u8>::Wants(look));
    if s.late > 0 {
        let t = lemma_byte_comes_in(board, slow, noise, s1);
        assert forall|g: Seq<u32>| #[trigger] script(g) == script(cons(r, g)) by {}
        lemma_device_step(script, script, device, look, s, s.coming[0], t);
        t
    } else {
        let t = Serial { coming: s.coming.drop_first(), ..s1 };
        lemma_byte_is_taken(board, slow, noise, s1);
        let take = |h: Seq<u32>| receive_run(board, h);
        assert forall|g: Seq<u32>| #[trigger] take(g) == script(cons(r, g)) by {}
        lemma_device_step(script, take, device, look, s, s.coming[0], t);
        t
    }
}

/// Without waiting: the byte that has come in, or 0, with the line as it was, where none
/// has.
pub proof fn lemma_byte_or_nothing(board: Board, slow: nat, noise: u32, s: Serial) -> (t: Serial)
    ensures
        ends_with_device(
            |h: Seq<u32>| getc_nonblocking_run(board, h),
            serial(board, slow, noise),
            s,
            if s.coming.len() > 0 && s.late == 0 {
                s.coming[0]
            } else {
                0
            },
            t,
        ),
        t.coming == (if s.coming.len() > 0 && s.late == 0 {
            s.coming.drop_first()
        } else {
            s.coming
        }),
        t.sent == s.sent,
{
    let device = serial(board, slow, noise);
    let script = |h: Seq<u32>| getc_nonblocking_run(board, h);
    let look = RegOp::Read(at(board, 0x20_1018));
    let r = serial_flags(s);
    let s1 = Serial { full: sooner(s.full), late: sooner(s.late), ..s };
    lemma_flags(s);
    assert(device(s, look) == (r, s1));
    assert(script(Seq::empty()) == RegRun::<u8>::Wants(look));
    if s.coming.len() > 0 && s.late == 0 {
        let t = Serial { coming: s.coming.drop_first(), ..s1 };
        lemma_byte_is_taken(board, slow, noise, s1);
        let take = |h: Seq<u32>| receive_run(board, h);
        assert forall|g: Seq<u32>| #[trigger] take(g) == script(cons(r, g)) by {}
        lemma_device_step(script, take, device, look, s, s.coming[0], t);
        t
    } else {
        let end = |h: Seq<u32>| RegRun::<u8>::Finished(0, h);
        lemma_device_end(end, device, s1, 0u8);
        assert forall|g: Seq<u32>| #[trigger] end(g) == script(cons(r, g)) by {}
        lemma_device_step(script, end, device, look, s, 0u8, s1);
        s1
    }
}

/// The settings of the UART.
pub struct Settings {
    pub control: u32,
    pub divisor: u32,
    pub fraction: u32,
    pub line: u32,
    /// The interrupts that wait.
    pub waiting: u32,
}

/// The UART's settings, which cannot be changed while it is enabled.
pub open spec fn settings(board: Board) -> spec_fn(Settings, RegOp) -> (u32, Settings) {
    |s: Settings, op: RegOp|
        match op {
            RegOp::Write(a, v) => if a == at(board, 0x20_1030) {
                (0u32, Settings { control: v, ..s })
            } else if a == at(board, 0x20_1044) {
                (0u32, Settings { waiting: s.waiting & !v, ..s })
            } else if s.control % 2 == 1 {
                (0u32, s)
            } else if a == at(board, 0x20_1024) {
                (0u32, Settings { divisor: v, ..s })
            } else if a == at(board, 0x20_1028) {
                (0u32, Settings { fraction: v, ..s })
            } else if a == at(board, 0x20_102C) {
                (0u32, Settings { line: v, ..s })
            } else {
                (0u32, s)
            },
            _ => (0u32, s),
        }
}

/// However it was, the UART ends up enabled for sending and receiving, with eight data
/// bits, FIFOs, no parity and one stop bit, at a rate within 0.2 per cent of 115200 baud
/// with its clock of 48 MHz, and with none of its eleven interrupts waiting.
pub proof fn lemma_uart_is_set_up(board: Board, s: Settings)
    ensures
        ({
            let t = state_after(settings(board), init_ops(board), s);
            &&& t.control & 1 == 1 && (t.control >> 8) & 1 == 1 && (t.control >> 9) & 1 == 1
            &&& (t.line >> 5) & 3 == 3 && (t.line >> 4) & 1 == 1
            &&& (t.line >> 1) & 1 == 0 && (t.line >> 3) & 1 == 0
            &&& 998 * 115_200 * (64 * t.divisor + t.fraction) <= 1000 * 4 * 48_000_000
            &&& 1000 * 4 * 48_000_000 <= 1002 * 115_200 * (64 * t.divisor + t.fraction)
            &&& t.fraction < 64
            &&& t.waiting & 0x7FF == 0
        }),
{
    let ops = init_ops(board);
    let w = s.waiting;
    reveal_with_fuel(state_after, 7);
    assert(ops.drop_first() =~= seq![ops[1], ops[2], ops[3], ops[4], ops[5]]);
    assert(ops.drop_first().drop_first() =~= seq![ops[2], ops[3], ops[4], ops[5]]);
    assert(ops.drop_first().drop_first().drop_first() =~= seq![ops[3], ops[4], ops[5]]);
    assert(ops.drop_first().drop_first().drop_first().drop_first() =~= seq![ops[4], ops[5]]);
    assert(ops.drop_first().drop_first().drop_first().drop_first().drop_first() =~= seq![ops[5]]);
    assert(ops.drop_first().drop_first().drop_first().drop_first().drop_first().drop_first()
        =~= Seq::empty());
    let t = state_after(settings(board), ops, s);
    assert(t == (Settings {
        control: 0x301,
        divisor: 26,
        fraction: 3,
        line: 0x70,
        waiting: w & !0x7FFu32,
    }));
    assert(0x301u32 & 1 == 1 && (0x301u32 >> 8) & 1 == 1 && (0x301u32 >> 9) & 1 == 1 && (0x70u32
        >> 5) & 3 == 3 && (0x70u32 >> 4) & 1 == 1 && (0x70u32 >> 1) & 1 == 0 && (0x70u32 >> 3) & 1
        == 0 && (w & !0x7FFu32) & 0x7FF == 0) by (bit_vector);
    assert(t.control & 1 == 1 && (t.control >> 8) & 1 == 1 && (t.control >> 9) & 1 == 1);
    assert((t.line >> 5) & 3 == 3 && (t.line >> 4) & 1 == 1);
    assert((t.line >> 1) & 1 == 0 && (t.line >> 3) & 1 == 0);
    assert(64 * t.divisor + t.fraction == 1667);
}

// ── The activity LED ───────────────────────────────────────────────────────

/// The pin of the LED: 47 or 42.
pub open spec fn led(board: Board) -> int {
    match board {
        Board::Rpi3 => 47,
        Board::Rpi4 => 42,
    }
}

/// The function of a pin, three bits of the word for its ten pins: 0 is an input, 1 an
/// output.
pub open spec fn function_of(select: u32, pin: int) -> u32 {
    (select >> ((3 * (pin % 10)) as u32)) & 7
}

/// The pins from 40 to 49: their functions, and the LED with how it was seen: for each
/// pause, whether it was on, and for how many instructions.
pub struct Pins {
    pub select: u32,
    pub on: bool,
    pub seen: Seq<(bool, int)>,
}

/// Writing a one to the bit of a pin sets it (0x20) or clears it (0x2C); a register has
/// the pins from 32 on.
pub open spec fn pins(board: Board) -> spec_fn(Pins, RegOp) -> (u32, Pins) {
    |s: Pins, op: RegOp|
        match op {
            RegOp::Read(a) => (
                if a == at(board, 0x20_0010) {
                    s.select
                } else {
                    0
                },
                s,
            ),
            RegOp::Write(a, v) => (
                0,
                if a == at(board, 0x20_0010) {
                    Pins { select: v, ..s }
                } else if a == at(board, 0x20_0020) && (v >> ((led(board) - 32) as u32)) & 1 == 1 {
                    Pins { on: true, ..s }
                } else if a == at(board, 0x20_002C) && (v >> ((led(board) - 32) as u32)) & 1 == 1 {
                    Pins { on: false, ..s }
                } else {
                    s
                },
            ),
            RegOp::Nops(n) => (0, Pins { seen: s.seen.push((s.on, n as int)), ..s }),
            _ => (0, s),
        }
}

proof fn lemma_led_field(board: Board, v: u32, after: u32)
    requires
        after == (v & !crate::gpio::led_field(board)) | crate::gpio::led_output(board),
    ensures
        function_of(after, led(board)) == 1,
        forall|pin: int|
            40 <= pin < 50 && pin != led(board) ==> #[trigger] function_of(after, pin)
                == function_of(v, pin),
{
    let a = (v & !0x00E0_0000u32) | 0x0020_0000u32;
    let b = (v & !0x1C0u32) | 0x40u32;
    assert((a >> 21) & 7 == 1 && (a >> 0) & 7 == (v >> 0) & 7 && (a >> 3) & 7 == (v >> 3) & 7 && (a
        >> 6) & 7 == (v >> 6) & 7 && (a >> 9) & 7 == (v >> 9) & 7 && (a >> 12) & 7 == (v >> 12) & 7
        && (a >> 15) & 7 == (v >> 15) & 7 && (a >> 18) & 7 == (v >> 18) & 7 && (a >> 24) & 7 == (v
        >> 24) & 7 && (a >> 27) & 7 == (v >> 27) & 7 && (b >> 6) & 7 == 1 && (b >> 0) & 7 == (v
        >> 0) & 7 && (b >> 3) & 7 == (v >> 3) & 7 && (b >> 9) & 7 == (v >> 9) & 7 && (b >> 12) & 7
        == (v >> 12) & 7 && (b >> 15) & 7 == (v >> 15) & 7 && (b >> 18) & 7 == (v >> 18) & 7 && (b
        >> 21) & 7 == (v >> 21) & 7 && (b >> 24) & 7 == (v >> 24) & 7 && (b >> 27) & 7 == (v >> 27)
        & 7) by (bit_vector)
        requires
            a == (v & !0x00E0_0000u32) | 0x0020_0000u32,
            b == (v & !0x1C0u32) | 0x40u32,
    ;
    assert forall|pin: int| 40 <= pin < 50 && pin != led(board) implies #[trigger] function_of(
        after,
        pin,
    ) == function_of(v, pin) by {
        let n = pin % 10;
        assert(n == 0 || n == 1 || n == 2 || n == 3 || n == 4 || n == 5 || n == 6 || n == 7 || n
            == 8 || n == 9);
    }
}

/// The LED's pin becomes an output, and no other pin changes its function.
pub proof fn lemma_led_is_set_up(board: Board, s: Pins) -> (t: Pins)
    ensures
        ends_with_device(|h: Seq<u32>| init_led_run(board, h), pins(board), s, (), t),
        function_of(t.select, led(board)) == 1,
        forall|pin: int|
            40 <= pin < 50 && pin != led(board) ==> #[trigger] function_of(t.select, pin)
                == function_of(s.select, pin),
        t.on == s.on,
{
    let device = pins(board);
    let reg = at(board, 0x20_0010);
    let v = s.select;
    let after = (v & !crate::gpio::led_field(board)) | crate::gpio::led_output(board);
    let t = Pins { select: after, ..s };
    lemma_led_field(board, v, after);
    let read = RegOp::Read(reg);
    let ops = seq![RegOp::Write(reg, after)];
    lemma_device_op(device, read, s);
    lemma_device_batch(device, ops, s);
    assert(state_after(device, ops, s) == t) by {
        reveal_with_fuel(state_after, 2);
        assert(ops.drop_first() =~= Seq::empty());
    }
    lemma_device_then(
        device,
        |h: Seq<u32>| init_led_run(board, h),
        |h: Seq<u32>| op_run(read, h),
        |v: u32, h: Seq<u32>|
            batch_run(
                seq![
                    RegOp::Write(
                        reg,
                        (v & !crate::gpio::led_field(board)) | crate::gpio::led_output(board),
                    ),
                ],
                h,
            ),
        |h: Seq<u32>| batch_run::<RegOp, u32>(ops, h),
        s,
        v,
        s,
        (),
        t,
    );
    t
}

/// What is seen of `n` blinks; a millisecond has 1500 instructions.
pub open spec fn flashes(n: nat, on_ms: int, off_ms: int) -> Seq<(bool, int)> {
    Seq::new(
        2 * n,
        |i: int|
            if i % 2 == 0 {
                (true, 1500 * on_ms)
            } else {
                (false, 1500 * off_ms)
            },
    )
}

/// Blinking has the LED on and off in turn, for as long as was asked, and leaves it off.
pub proof fn lemma_led_blinks(board: Board, s: Pins, n: nat, on_ms: u32, off_ms: u32) -> (t: Pins)
    requires
        on_ms * 1500 <= u32::MAX,
        off_ms * 1500 <= u32::MAX,
    ensures
        ends_with_device(
            |h: Seq<u32>| blink_run(board, n, on_ms, off_ms, h),
            pins(board),
            s,
            (),
            t,
        ),
        t.seen == s.seen + flashes(n, on_ms as int, off_ms as int),
        t.select == s.select,
        n > 0 ==> !t.on,
    decreases n,
{
    let device = pins(board);
    let script = |h: Seq<u32>| blink_run(board, n, on_ms, off_ms, h);
    if n == 0 {
        lemma_device_end(script, device, s, ());
        assert(s.seen + flashes(n, on_ms as int, off_ms as int) =~= s.seen);
        s
    } else {
        let ops = blink_round(board, on_ms, off_ms);
        let s1 = Pins {
            on: false,
            seen: s.seen.push((true, on_ms * 1500)).push((false, off_ms * 1500)),
            ..s
        };
        assert((0x8000u32 >> 15) & 1 == 1 && (0x400u32 >> 10) & 1 == 1) by (bit_vector);
        lemma_device_batch(device, ops, s);
        assert(state_after(device, ops, s) == s1) by {
            reveal_with_fuel(state_after, 5);
            assert(ops.drop_first() =~= seq![ops[1], ops[2], ops[3]]);
            assert(ops.drop_first().drop_first() =~= seq![ops[2], ops[3]]);
            assert(ops.drop_first().drop_first().drop_first() =~= seq![ops[3]]);
            assert(ops.drop_first().drop_first().drop_first().drop_first() =~= Seq::empty());
        }
        let m = (n - 1) as nat;
        let t = lemma_led_blinks(board, s1, m, on_ms, off_ms);
        lemma_device_then(
            device,
            script,
            |h: Seq<u32>| batch_run::<RegOp, u32>(ops, h),
            |_u: (), h: Seq<u32>| blink_run(board, m, on_ms, off_ms, h),
            |h: Seq<u32>| blink_run(board, m, on_ms, off_ms, h),
            s,
            (),
            s1,
            (),
            t,
        );
        assert(t.seen =~= s.seen + flashes(n, on_ms as int, off_ms as int));
        t
    }
}

/// After a panic: three short flashes, three long ones, three short ones, and a pause of
/// half a second.
pub proof fn lemma_panic_is_seen(board: Board, s: Pins) -> (t: Pins)
    ensures
        ends_with_device(|h: Seq<u32>| panic_round_run(board, h), pins(board), s, (), t),
        t.seen == s.seen + flashes(3, 100, 100) + flashes(3, 300, 100) + flashes(3, 100, 100)
            + seq![(false, 750_000int)],
{
    let device = pins(board);
    let s1 = lemma_led_blinks(board, s, 3, 100, 100);
    let s2 = lemma_led_blinks(board, s1, 3, 300, 100);
    let s3 = lemma_led_blinks(board, s2, 3, 100, 100);
    let pause = RegOp::Nops(750_000);
    let t = Pins { seen: s3.seen.push((false, 750_000int)), ..s3 };
    let end = |h: Seq<u32>| RegRun::<()>::Finished((), h);
    let rest = |h: Seq<u32>| panic_pause_run(h);
    lemma_device_end(end, device, t, ());
    assert forall|g: Seq<u32>| #[trigger] end(g) == rest(cons(0, g)) by {}
    lemma_device_step(rest, end, device, pause, s3, (), t);
    let short = |h: Seq<u32>| panic_short_run(board, h);
    lemma_device_then(
        device,
        short,
        |h: Seq<u32>| blink_run(board, 3, 100, 100, h),
        |_u: (), h: Seq<u32>| panic_pause_run(h),
        rest,
        s2,
        (),
        s3,
        (),
        t,
    );
    let long = |h: Seq<u32>| panic_long_run(board, h);
    lemma_device_then(
        device,
        long,
        |h: Seq<u32>| blink_run(board, 3, 300, 100, h),
        |_u: (), h: Seq<u32>| panic_short_run(board, h),
        short,
        s1,
        (),
        s2,
        (),
        t,
    );
    lemma_device_then(
        device,
        |h: Seq<u32>| panic_round_run(board, h),
        |h: Seq<u32>| blink_run(board, 3, 100, 100, h),
        |_u: (), h: Seq<u32>| panic_long_run(board, h),
        long,
        s,
        (),
        s1,
        (),
        t,
    );
    assert(t.seen =~= s.seen + flashes(3, 100, 100) + flashes(3, 300, 100) + flashes(3, 100, 100)
        + seq![(false, 750_000int)]);
    t
}

// ── The GPU ────────────────────────────────────────────────────────────────

/// The GPU's mailbox.
pub struct Gpu {
    /// Looks at the status until there is room for a message.
    pub busy: nat,
    /// The word that was posted.
    pub posted: Option<u32>,
    /// Looks at the status until the next reply is there.
    pub late: nat,
    /// The replies to come, the one to the message last.
    pub replies: Seq<u32>,
}

/// The GPU takes a posted word for the address of a message and, in its low four bits, a
/// channel. It replies with the same word, after replies that others wait for; by then
/// it has put `code` into the message's second word.
pub open spec fn gpu(board: Board, buf: u32, slow: nat, others: Seq<u32>, code: u32) -> spec_fn(
    Gpu,
    RegOp,
) -> (u32, Gpu) {
    |s: Gpu, op: RegOp|
        match op {
            RegOp::Read(a) => if a == at(board, 0xB898) {
                (
                    (if s.busy > 0 {
                        0x8000_0000u32
                    } else {
                        0u32
                    }) | (if s.late > 0 || s.replies.len() == 0 {
                        0x4000_0000u32
                    } else {
                        0u32
                    }),
                    Gpu { busy: sooner(s.busy), late: sooner(s.late), ..s },
                )
            } else if a == at(board, 0xB880) && s.late == 0 && s.replies.len() > 0 {
                (s.replies[0], Gpu { replies: s.replies.drop_first(), late: slow, ..s })
            } else if a == buf + 4 && s.posted is Some && s.replies.len() == 0 {
                (code, s)
            } else {
                (0, s)
            },
            RegOp::Write(a, v) => if a == at(board, 0xB8A0) && s.busy == 0 && v - v % 16 == buf {
                (0, Gpu { posted: Some(v), replies: others.push(v), late: slow, ..s })
            } else {
                (0, s)
            },
            _ => (0, s),
        }
}

proof fn lemma_status(full: bool, empty: bool)
    ensures
        ({
            let x = (if full {
                0x8000_0000u32
            } else {
                0u32
            }) | (if empty {
                0x4000_0000u32
            } else {
                0u32
            });
            (x & 0x8000_0000 != 0 <==> full) && (x & 0x4000_0000 != 0 <==> empty)
        }),
{
    let x = (if full {
        0x8000_0000u32
    } else {
        0u32
    }) | (if empty {
        0x4000_0000u32
    } else {
        0u32
    });
    assert((x & 0x8000_0000 != 0 <==> full) && (x & 0x4000_0000 != 0 <==> empty)) by (bit_vector)
        requires
            x == (if full {
                0x8000_0000u32
            } else {
                0u32
            }) | (if empty {
                0x4000_0000u32
            } else {
                0u32
            }),
    ;
}

/// The replies before the last one are on other channels.
pub open spec fn foreign(replies: Seq<u32>, channel: u32) -> bool {
    &&& replies.len() > 0
    &&& replies.last() & 0xF == channel
    &&& forall|i: int| 0 <= i < replies.len() - 1 ==> #[trigger] replies[i] & 0xF != channel
}

proof fn lemma_code_is_read(
    board: Board,
    buf: u32,
    slow: nat,
    others: Seq<u32>,
    code: u32,
    s: Gpu,
)
    requires
        buf + 16 <= 0x3F00_0000,
        s.posted is Some,
        s.replies.len() == 0,
    ensures
        ends_with_device(
            |h: Seq<u32>| code_run(buf, h),
            gpu(board, buf, slow, others, code),
            s,
            code == 0x8000_0000,
            s,
        ),
{
    let device = gpu(board, buf, slow, others, code);
    let v = code == 0x8000_0000;
    let check = |h: Seq<u32>| code_run(buf, h);
    let op = RegOp::Read((buf + 4) as u64);
    assert(device(s, op) == (code, s));
    let end = |h: Seq<u32>| RegRun::<bool>::Finished(v, h);
    lemma_device_end(end, device, s, v);
    assert forall|g: Seq<u32>| #[trigger] end(g) == check(cons(code, g)) by {}
    lemma_device_step(check, end, device, op, s, v, s);
}

/// How the wait for a reply goes on.
proof fn lemma_wait_unfolds(board: Board, buf: u32, channel: u32, r: u32, g: Seq<u32>)
    ensures
        wait_run(board, buf, channel, Seq::empty()) == RegRun::<bool>::Wants(
            RegOp::Read(at(board, 0xB898)),
        ),
        wait_run(board, buf, channel, cons(r, g)) == (if r & 0x4000_0000 != 0 {
            wait_run(board, buf, channel, g)
        } else {
            reply_run(board, buf, channel, g)
        }),
        reply_run(board, buf, channel, Seq::empty()) == RegRun::<bool>::Wants(
            RegOp::Read(at(board, 0xB880)),
        ),
        reply_run(board, buf, channel, cons(r, g)) == (if r & 0xF == channel {
            code_run(buf, g)
        } else {
            wait_run(board, buf, channel, g)
        }),
{
}

proof fn lemma_reply_is_awaited(
    board: Board,
    buf: u32,
    channel: u32,
    slow: nat,
    others: Seq<u32>,
    code: u32,
    s: Gpu,
) -> (t: Gpu)
    requires
        buf % 16 == 0,
        buf + 16 <= 0x3F00_0000,
        s.posted is Some,
        foreign(s.replies, channel),
    ensures
        ends_with_device(
            |h: Seq<u32>| wait_run(board, buf, channel, h),
            gpu(board, buf, slow, others, code),
            s,
            code == 0x8000_0000,
            t,
        ),
        t.posted == s.posted,
    decreases s.replies.len(), s.late,
{
    let device = gpu(board, buf, slow, others, code);
    let script = |h: Seq<u32>| wait_run(board, buf, channel, h);
    let look = RegOp::Read(at(board, 0xB898));
    let r = device(s, look).0;
    let s1 = Gpu { busy: sooner(s.busy), late: sooner(s.late), ..s };
    let v = code == 0x8000_0000;
    lemma_status(s.busy > 0, s.late > 0 || s.replies.len() == 0);
    assert(device(s, look) == (r, s1));
    lemma_wait_unfolds(board, buf, channel, r, Seq::empty());
    if s.late > 0 {
        let t = lemma_reply_is_awaited(board, buf, channel, slow, others, code, s1);
        assert forall|g: Seq<u32>| #[trigger] script(g) == script(cons(r, g)) by {
            lemma_wait_unfolds(board, buf, channel, r, g);
        }
        lemma_device_step(script, script, device, look, s, v, t);
        t
    } else {
        let take = |h: Seq<u32>| reply_run(board, buf, channel, h);
        let pick = RegOp::Read(at(board, 0xB880));
        let w = s.replies[0];
        let s2 = Gpu { replies: s.replies.drop_first(), late: slow, ..s1 };
        assert(device(s1, pick) == (w, s2));
        assert forall|g: Seq<u32>| #[trigger] take(g) == script(cons(r, g)) by {
            lemma_wait_unfolds(board, buf, channel, r, g);
        }
        if s.replies.len() > 1 {
            assert(w & 0xF != channel);
            assert forall|i: int| 0 <= i < s2.replies.len() - 1 implies #[trigger] s2.replies[i]
                & 0xF != channel by {
                assert(s.replies[i + 1] & 0xF != channel);
            }
            let t = lemma_reply_is_awaited(board, buf, channel, slow, others, code, s2);
            assert forall|g: Seq<u32>| #[trigger] script(g) == take(cons(w, g)) by {
                lemma_wait_unfolds(board, buf, channel, w, g);
            }
            lemma_device_step(take, script, device, pick, s1, v, t);
            lemma_device_step(script, take, device, look, s, v, t);
            t
        } else {
            assert(w == s.replies.last());
            let check = |h: Seq<u32>| code_run(buf, h);
            lemma_code_is_read(board, buf, slow, others, code, s2);
            assert forall|g: Seq<u32>| #[trigger] check(g) == take(cons(w, g)) by {
                lemma_wait_unfolds(board, buf, channel, w, g);
            }
            lemma_device_step(take, check, device, pick, s1, v, s2);
            lemma_device_step(script, take, device, look, s, v, s2);
            s2
        }
    }
}

/// The word that is posted.
proof fn lemma_posted_word(buf: u32, channel: u32)
    requires
        buf % 16 == 0,
        buf + 16 <= 0x3F00_0000,
        channel < 16,
    ensures
        ({
            let w = (buf & 0xFFFF_FFF0) | channel;
            w == buf + channel && w - w % 16 == buf && w & 0xF == channel
        }),
{
    let w = (buf & 0xFFFF_FFF0) | channel;
    assert(w == buf + channel && w % 16 == channel && w & 0xF == channel) by (bit_vector)
        requires
            buf % 16 == 0,
            buf < 0x3F00_0000,
            channel < 16,
            w == (buf & 0xFFFF_FFF0) | channel,
    ;
}

proof fn lemma_message_is_posted(
    board: Board,
    buf: u32,
    channel: u32,
    slow: nat,
    others: Seq<u32>,
    code: u32,
    s: Gpu,
) -> (t: Gpu)
    requires
        buf % 16 == 0,
        buf + 16 <= 0x3F00_0000,
        channel < 16,
        forall|i: int| 0 <= i < others.len() ==> #[trigger] others[i] & 0xF != channel,
        s.busy == 0,
    ensures
        ends_with_device(
            |h: Seq<u32>| post_run(board, buf, channel, h),
            gpu(board, buf, slow, others, code),
            s,
            code == 0x8000_0000,
            t,
        ),
        t.posted == Some((buf + channel) as u32),
{
    let device = gpu(board, buf, slow, others, code);
    let v = code == 0x8000_0000;
    let w = (buf & 0xFFFF_FFF0) | channel;
    lemma_posted_word(buf, channel);
    let op = RegOp::Write(at(board, 0xB8A0), w);
    let s2 = Gpu { posted: Some(w), replies: others.push(w), late: slow, ..s };
    assert(device(s, op) == (0u32, s2));
    assert(foreign(s2.replies, channel)) by {
        assert forall|i: int| 0 <= i < s2.replies.len() - 1 implies #[trigger] s2.replies[i] & 0xF
            != channel by {
            assert(others[i] & 0xF != channel);
        }
    }
    let t = lemma_reply_is_awaited(board, buf, channel, slow, others, code, s2);
    let post = |h: Seq<u32>| post_run(board, buf, channel, h);
    let wait = |h: Seq<u32>| wait_run(board, buf, channel, h);
    lemma_room_unfolds(board, buf, channel, 0, Seq::empty());
    assert forall|g: Seq<u32>| #[trigger] wait(g) == post(cons(0, g)) by {
        lemma_room_unfolds(board, buf, channel, 0, g);
    }
    lemma_device_step(post, wait, device, op, s, v, t);
    t
}

/// How the wait for room goes on, and what comes after it.
proof fn lemma_room_unfolds(board: Board, buf: u32, channel: u32, r: u32, g: Seq<u32>)
    ensures
        room_run(board, buf, channel, Seq::empty()) == RegRun::<bool>::Wants(
            RegOp::Read(at(board, 0xB898)),
        ),
        room_run(board, buf, channel, cons(r, g)) == (if r & 0x8000_0000 != 0 {
            room_run(board, buf, channel, g)
        } else {
            post_run(board, buf, channel, g)
        }),
        post_run(board, buf, channel, Seq::empty()) == RegRun::<bool>::Wants(
            RegOp::Write(at(board, 0xB8A0), (buf & 0xFFFF_FFF0) | channel),
        ),
        post_run(board, buf, channel, cons(r, g)) == wait_run(board, buf, channel, g),
{
}

proof fn lemma_room_is_awaited(
    board: Board,
    buf: u32,
    channel: u32,
    slow: nat,
    others: Seq<u32>,
    code: u32,
    s: Gpu,
) -> (t: Gpu)
    requires
        buf % 16 == 0,
        buf + 16 <= 0x3F00_0000,
        channel < 16,
        forall|i: int| 0 <= i < others.len() ==> #[trigger] others[i] & 0xF != channel,
    ensures
        ends_with_device(
            |h: Seq<u32>| room_run(board, buf, channel, h),
            gpu(board, buf, slow, others, code),
            s,
            code == 0x8000_0000,
            t,
        ),
        t.posted == Some((buf + channel) as u32),
    decreases s.busy,
{
    let device = gpu(board, buf, slow, others, code);
    let script = |h: Seq<u32>| room_run(board, buf, channel, h);
    let look = RegOp::Read(at(board, 0xB898));
    let r = device(s, look).0;
    let s1 = Gpu { busy: sooner(s.busy), late: sooner(s.late), ..s };
    let v = code == 0x8000_0000;
    lemma_status(s.busy > 0, s.late > 0 || s.replies.len() == 0);
    assert(device(s, look) == (r, s1));
    lemma_room_unfolds(board, buf, channel, r, Seq::empty());
    if s.busy > 0 {
        let t = lemma_room_is_awaited(board, buf, channel, slow, others, code, s1);
        assert forall|g: Seq<u32>| #[trigger] script(g) == script(cons(r, g)) by {
            lemma_room_unfolds(board, buf, channel, r, g);
        }
        lemma_device_step(script, script, device, look, s, v, t);
        t
    } else {
        let t = lemma_message_is_posted(board, buf, channel, slow, others, code, s1);
        let post = |h: Seq<u32>| post_run(board, buf, channel, h);
        assert forall|g: Seq<u32>| #[trigger] post(g) == script(cons(r, g)) by {
            lemma_room_unfolds(board, buf, channel, r, g);
        }
        lemma_device_step(script, post, device, look, s, v, t);
        t
    }
}

/// A message reaches the GPU with its address and its channel, however busy the GPU is
/// and whatever else it replies to; it is said to have succeeded if the GPU has marked
/// it so.
pub proof fn lemma_gpu_is_called(
    board: Board,
    buf: u32,
    channel: u32,
    slow: nat,
    others: Seq<u32>,
    code: u32,
    s: Gpu,
) -> (t: Gpu)
    requires
        buf % 16 == 0,
        buf + 16 <= 0x3F00_0000,
        channel < 16,
        forall|i: int| 0 <= i < others.len() ==> #[trigger] others[i] & 0xF != channel,
    ensures
        ends_with_device(
            |h: Seq<u32>| call_run(board, buf, channel, h),
            gpu(board, buf, slow, others, code),
            s,
            code == 0x8000_0000,
            t,
        ),
        t.posted == Some((buf + channel) as u32),
{
    let device = gpu(board, buf, slow, others, code);
    let script = |h: Seq<u32>| call_run(board, buf, channel, h);
    let room = |h: Seq<u32>| room_run(board, buf, channel, h);
    let t = lemma_room_is_awaited(board, buf, channel, slow, others, code, s);
    let v = code == 0x8000_0000;
    assert forall|g: Seq<u32>| #[trigger] room(g) == script(cons(0, g)) by {}
    lemma_device_step(script, room, device, RegOp::DataMemoryBarrier, s, v, t);
    t
}

} // verus!
