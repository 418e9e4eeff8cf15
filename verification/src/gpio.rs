//! The activity LED: a heartbeat where there is neither a serial cable nor a
//! display.
use vstd::prelude::*;
use crate::board::{Board, peripheral_base};
use crate::session::{Run, Next, RegOp, RegRun, cons, op_run, batch_run, completes, performed, lemma_completes_and_then, lemma_batch};

verus! {

broadcast use crate::session::lemma_cons;

/// The pin of the activity LED.
pub open spec fn led_pin(board: Board) -> int {
    match board {
        Board::Rpi3 => 47,
        Board::Rpi4 => 42,
    }
}

pub open spec fn gpio_base(board: Board) -> int {
    peripheral_base(board) + 0x20_0000
}

/// The function select register of the LED's pin: ten pins to a register.
pub open spec fn led_select(board: Board) -> u64 {
    (gpio_base(board) + 4 * (led_pin(board) / 10)) as u64
}

/// The three bits of the LED's pin in its function select register, all set.
pub open spec fn led_field(board: Board) -> u32 {
    match board {
        Board::Rpi3 => 0x00E0_0000,
        Board::Rpi4 => 0x0000_01C0,
    }
}

/// The same bits with the value 1, which makes the pin an output.
pub open spec fn led_output(board: Board) -> u32 {
    match board {
        Board::Rpi3 => 0x0020_0000,
        Board::Rpi4 => 0x0000_0040,
    }
}

/// The bit of the LED's pin in the second set and clear registers, which start with
/// pin 32.
pub open spec fn led_bit(board: Board) -> u32 {
    match board {
        Board::Rpi3 => 0x8000,
        Board::Rpi4 => 0x400,
    }
}

pub open spec fn on_op(board: Board) -> RegOp {
    RegOp::Write((gpio_base(board) + 0x20) as u64, led_bit(board))
}

pub open spec fn off_op(board: Board) -> RegOp {
    RegOp::Write((gpio_base(board) + 0x2C) as u64, led_bit(board))
}

/// The register values above, from the number of the pin.
pub proof fn lemma_led_bits(board: Board)
    ensures
        ({
            let shift = (3 * (led_pin(board) % 10)) as u32;
            &&& led_field(board) == 7u32 << shift
            &&& led_output(board) == 1u32 << shift
            &&& led_bit(board) == 1u32 << ((led_pin(board) - 32) as u32)
        }),
{
    assert(7u32 << 21u32 == 0x00E0_0000 && 1u32 << 21u32 == 0x0020_0000 && 7u32 << 6u32 == 0x1C0
        && 1u32 << 6u32 == 0x40 && 1u32 << 15u32 == 0x8000 && 1u32 << 10u32 == 0x400)
        by (bit_vector);
}

/// Makes the LED's pin an output and leaves the other pins of its register alone.
pub open spec fn init_led_run(board: Board, h: Seq<u32>) -> RegRun<()> {
    op_run(RegOp::Read(led_select(board)), h).and_then(
        |v: u32, h: Seq<u32>|
            batch_run(
                seq![
                    RegOp::Write(
                        led_select(board),
                        (v & !led_field(board)) | led_output(board),
                    ),
                ],
                h,
            ),
    )
}

/// The LED's pin is an output afterwards, and no other pin of its register has
/// changed.
pub proof fn lemma_other_pins_stay(board: Board, v: u32)
    ensures
        ({
            let after = (v & !led_field(board)) | led_output(board);
            &&& after & led_field(board) == led_output(board)
            &&& after & !led_field(board) == v & !led_field(board)
        }),
{
    assert(((v & !0x00E0_0000u32) | 0x0020_0000u32) & 0x00E0_0000u32 == 0x0020_0000u32 && ((v
        & !0x00E0_0000u32) | 0x0020_0000u32) & !0x00E0_0000u32 == v & !0x00E0_0000u32 && ((v
        & !0x1C0u32) | 0x40u32) & 0x1C0u32 == 0x40u32 && ((v & !0x1C0u32) | 0x40u32) & !0x1C0u32
        == v & !0x1C0u32) by (bit_vector);
}

enum LedStage {
    Read,
    Write(u32),
    Done,
}

/// The set-up of the LED's pin under way.
pub struct InitLed {
    board: Board,
    stage: LedStage,
}

impl InitLed {
    /// What happens from here on.
    pub closed spec fn run(self, h: Seq<u32>) -> RegRun<()> {
        match self.stage {
            LedStage::Read => init_led_run(self.board, h),
            LedStage::Write(v) => batch_run(seq![RegOp::Write(led_select(self.board), v)], h),
            LedStage::Done => Run::Finished((), h),
        }
    }

    pub fn next(&self) -> (r: Next<RegOp, ()>)
        ensures
            r == self.run(Seq::empty()).asks(),
            r matches Next::Done(v) ==> forall|h: Seq<u32>| #[trigger]
                self.run(h) == RegRun::Finished(v, h),
    {
        let select: u64 = self.board.peripherals() + 0x20_0010;
        match self.stage {
            LedStage::Read => Next::Op(RegOp::Read(select)),
            LedStage::Write(v) => Next::Op(RegOp::Write(select, v)),
            LedStage::Done => Next::Done(()),
        }
    }

    pub fn answer(&mut self, r: u32)
        requires
            old(self).run(Seq::empty()) is Wants,
        ensures
            forall|h: Seq<u32>|
                #![trigger final(self).run(h)]
                #![trigger old(self).run(cons(r, h))]
                final(self).run(h) == old(self).run(cons(r, h)),
    {
        let (field, output): (u32, u32) = match self.board {
            Board::Rpi3 => (0x00E0_0000, 0x0020_0000),
            Board::Rpi4 => (0x0000_01C0, 0x0000_0040),
        };
        match self.stage {
            LedStage::Read => {
                self.stage = LedStage::Write((r & !field) | output);
            },
            LedStage::Write(v) => {
                self.stage = LedStage::Done;
                let ghost ops = seq![RegOp::Write(led_select(self.board), v)];
                assert(ops.drop_first() =~= Seq::empty());
                assert forall|h: Seq<u32>| #[trigger] batch_run(ops, cons(r, h)) == RegRun::Finished(
                    (),
                    h,
                ) by {
                    reveal_with_fuel(batch_run, 2);
                }
            },
            LedStage::Done => {},
        }
    }
}

/// Configures the activity LED's pin as an output.
pub fn init_led(board: Board) -> (m: InitLed)
    ensures
        forall|h: Seq<u32>| #[trigger] m.run(h) == init_led_run(board, h),
{
    InitLed { board, stage: LedStage::Read }
}

fn get_led_bit(board: Board) -> (bit: u32)
    ensures
        bit == led_bit(board),
{
    match board {
        Board::Rpi3 => 0x8000,
        Board::Rpi4 => 0x400,
    }
}

/// Turns the activity LED on.
pub fn led_on(board: Board) -> (op: RegOp)
    ensures
        op == on_op(board),
{
    RegOp::Write(board.peripherals() + 0x20_0020, get_led_bit(board))
}

/// Turns the activity LED off.
pub fn led_off(board: Board) -> (op: RegOp)
    ensures
        op == off_op(board),
{
    RegOp::Write(board.peripherals() + 0x20_002C, get_led_bit(board))
}

/// Loop iterations that take about a millisecond at 1.5 GHz.
pub const NOPS_PER_MS: u32 = 1500;

/// Waits for about `ms` milliseconds.
pub fn delay_ms(ms: u32) -> (op: RegOp)
    requires
        ms * NOPS_PER_MS <= u32::MAX,
    ensures
        op == RegOp::Nops((ms * NOPS_PER_MS) as u64),
{
    RegOp::Nops((ms * NOPS_PER_MS) as u64)
}

/// One blink.
pub open spec fn blink_round(board: Board, on_ms: u32, off_ms: u32) -> Seq<RegOp> {
    seq![
        on_op(board),
        RegOp::Nops((on_ms * NOPS_PER_MS) as u64),
        off_op(board),
        RegOp::Nops((off_ms * NOPS_PER_MS) as u64),
    ]
}

/// Blinks `n` times.
pub open spec fn blink_run(board: Board, n: nat, on_ms: u32, off_ms: u32, h: Seq<u32>) -> RegRun<()>
    decreases n,
{
    if n == 0 {
        Run::Finished((), h)
    } else {
        batch_run(blink_round(board, on_ms, off_ms), h).and_then(
            |_u: (), h: Seq<u32>| blink_run(board, (n - 1) as nat, on_ms, off_ms, h),
        )
    }
}

/// Blinking under way.
pub struct Blink {
    board: Board,
    left: u32,
    on_ms: u32,
    off_ms: u32,
    step: u8,
}

impl Blink {
    pub closed spec fn wf(self) -> bool {
        &&& self.step < 4
        &&& self.on_ms * NOPS_PER_MS <= u32::MAX
        &&& self.off_ms * NOPS_PER_MS <= u32::MAX
    }

    /// What happens from here on.
    pub closed spec fn run(self, h: Seq<u32>) -> RegRun<()> {
        if self.left == 0 {
            Run::Finished((), h)
        } else {
            batch_run(
                blink_round(self.board, self.on_ms, self.off_ms).skip(self.step as int),
                h,
            ).and_then(
                |_u: (), h: Seq<u32>|
                    blink_run(self.board, (self.left - 1) as nat, self.on_ms, self.off_ms, h),
            )
        }
    }

    pub fn next(&self) -> (r: Next<RegOp, ()>)
        requires
            self.wf(),
        ensures
            r == self.run(Seq::empty()).asks(),
            r matches Next::Done(v) ==> forall|h: Seq<u32>| #[trigger]
                self.run(h) == RegRun::Finished(v, h),
    {
        if self.left == 0 {
            return Next::Done(());
        }
        match self.step {
            0 => Next::Op(led_on(self.board)),
            1 => Next::Op(delay_ms(self.on_ms)),
            2 => Next::Op(led_off(self.board)),
            _ => Next::Op(delay_ms(self.off_ms)),
        }
    }

    pub fn answer(&mut self, r: u32)
        requires
            old(self).wf(),
            old(self).run(Seq::empty()) is Wants,
        ensures
            final(self).wf(),
            forall|h: Seq<u32>|
                #![trigger final(self).run(h)]
                #![trigger old(self).run(cons(r, h))]
                final(self).run(h) == old(self).run(cons(r, h)),
    {
        let ghost round = blink_round(self.board, self.on_ms, self.off_ms);
        assert(round.skip(self.step as int).drop_first() =~= round.skip(self.step + 1));
        assert(round.skip(4) =~= Seq::empty());
        assert(round.skip(0) =~= round);
        if self.step < 3 {
            self.step = self.step + 1;
        } else {
            self.step = 0;
            self.left = self.left - 1;
            reveal_with_fuel(batch_run, 2);
        }
    }
}

/// Blinks the activity LED `n` times, on for `on_ms` and off for `off_ms`
/// milliseconds.
pub fn blink(board: Board, n: u32, on_ms: u32, off_ms: u32) -> (m: Blink)
    requires
        on_ms * NOPS_PER_MS <= u32::MAX,
        off_ms * NOPS_PER_MS <= u32::MAX,
    ensures
        m.wf(),
        forall|h: Seq<u32>| #[trigger] m.run(h) == blink_run(board, n as nat, on_ms, off_ms, h),
{
    assert(blink_round(board, on_ms, off_ms).skip(0) =~= blink_round(board, on_ms, off_ms));
    Blink { board, left: n, on_ms, off_ms, step: 0 }
}

/// Whatever the hardware replies, `n` blinks are exactly `n` rounds of on, pause, off,
/// pause, and the LED is off at the end.
pub proof fn lemma_blink(
    board: Board,
    n: nat,
    on_ms: u32,
    off_ms: u32,
    answers: spec_fn(RegOp) -> u32,
) -> (h: Seq<u32>)
    ensures
        ({
            let script = |h: Seq<u32>| blink_run(board, n, on_ms, off_ms, h);
            let ops = performed(script, h);
            &&& completes(script, answers, h, ())
            &&& ops.len() == 4 * n
            &&& forall|i: int|
                0 <= i < 4 * n ==> #[trigger] ops[i] == blink_round(board, on_ms, off_ms)[i % 4]
        }),
    decreases n,
{
    let script = |h: Seq<u32>| blink_run(board, n, on_ms, off_ms, h);
    if n == 0 {
        Seq::empty()
    } else {
        let round = blink_round(board, on_ms, off_ms);
        let first = |h: Seq<u32>| batch_run(round, h);
        let left = |h: Seq<u32>| blink_run(board, (n - 1) as nat, on_ms, off_ms, h);
        let k = |_u: (), h: Seq<u32>| blink_run(board, (n - 1) as nat, on_ms, off_ms, h);
        let h1 = lemma_batch(round, answers);
        let h2 = lemma_blink(board, (n - 1) as nat, on_ms, off_ms, answers);
        assert((|h: Seq<u32>| k((), h)) =~= left);
        lemma_completes_and_then(first, k, answers, h1, (), h2, ());
        assert((|h: Seq<u32>| first(h).and_then(k)) =~= script);
        let later = performed(left, h2);
        assert(performed(script, h1 + h2) == round + later);
        assert forall|i: int| 0 <= i < 4 * n implies #[trigger] (round + later)[i] == round[i % 4] by {
            if i >= 4 {
                assert(later[i - 4] == round[(i - 4) % 4]);
            }
        }
        h1 + h2
    }
}

} // verus!
