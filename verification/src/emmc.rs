//! EMMC2 (SDHCI 3.0) driver for the Raspberry Pi 4: bringing the SD card up and
//! reading 512-byte blocks.
use vstd::prelude::*;
use crate::session::{Run, Next, RegOp, RegRun, op_run, batch_run, cons, ends_within, lemma_batch_ends};

verus! {

broadcast use crate::session::lemma_cons;

// Register addresses.
pub const EMMC_BLKSIZECNT: u64 = 0xFE34_0004;
pub const EMMC_ARG1: u64 = 0xFE34_0008;
pub const EMMC_CMDTM: u64 = 0xFE34_000C;
pub const EMMC_RESP0: u64 = 0xFE34_0010;
pub const EMMC_DATA: u64 = 0xFE34_0020;
pub const EMMC_STATUS: u64 = 0xFE34_0024;
pub const EMMC_CONTROL0: u64 = 0xFE34_0028;
pub const EMMC_CONTROL1: u64 = 0xFE34_002C;
pub const EMMC_INTERRUPT: u64 = 0xFE34_0030;
pub const EMMC_IRPT_MASK: u64 = 0xFE34_0034;
pub const EMMC_IRPT_EN: u64 = 0xFE34_0038;
pub const EMMC_CONTROL2: u64 = 0xFE34_003C;

// STATUS bits.
/// Command line busy (bit 0) or data line busy (bit 1).
pub const SR_INHIBIT: u32 = 0x0000_0003;
/// The card expects an application command.
pub const SR_APP_CMD: u32 = 0x0000_0020;

// INTERRUPT bits.
pub const INT_CMD_DONE: u32 = 0x0000_0001;
pub const INT_DATA_DONE: u32 = 0x0000_0002;
pub const INT_READ_RDY: u32 = 0x0000_0020;
pub const INT_ERROR_MASK: u32 = 0xFFFF_0000;

// CONTROL0 and CONTROL1 bits.
/// SD bus power VDD1 at 3.3 V.
pub const C0_VDD1_3V3: u32 = 0x0000_0F00;
pub const C1_CLK_INTLEN: u32 = 0x0000_0001;
pub const C1_CLK_STABLE: u32 = 0x0000_0002;
pub const C1_CLK_EN: u32 = 0x0000_0004;
/// Everything in CONTROL1 but the clock divisor.
pub const C1_NOT_DIVISOR: u32 = 0xFFFF_003F;
/// Data timeout TMCLK * 2^24.
pub const C1_TOUNIT_MAX: u32 = 0x000B_0000;
/// Reset of the whole host controller.
pub const C1_SRST_HC: u32 = 0x0100_0000;

// SD commands, as CMDTM values.
/// Not a bit of CMDTM: the command has to be prefixed with CMD55.
pub const CMD_NEED_APP: u32 = 0x8000_0000;
/// GO_IDLE_STATE, no response.
pub const CMD0: u32 = 0x0000_0000;
/// ALL_SEND_CID, 136-bit response, CRC check.
pub const CMD2: u32 = 0x0209_0000;
/// SEND_RELATIVE_ADDR, 48-bit response, index and CRC check.
pub const CMD3: u32 = 0x031A_0000;
/// SELECT_CARD, 48-bit response with busy, CRC check.
pub const CMD7: u32 = 0x070B_0000;
/// SEND_IF_COND, 48-bit response, index and CRC check.
pub const CMD8: u32 = 0x081A_0000;
/// SET_BLOCKLEN, 48-bit response, CRC check.
pub const CMD16: u32 = 0x100A_0000;
/// READ_SINGLE_BLOCK, 48-bit response, index and CRC check, data to the host.
pub const CMD17: u32 = 0x113A_0010;
/// APP_CMD, 48-bit response, index and CRC check.
pub const CMD55: u32 = 0x371A_0000;
/// APP_CMD to a card that has no address yet: 48-bit response, nothing checked.
pub const CMD55_NO_RCA: u32 = 0x3702_0000;
/// SD_SEND_OP_COND, 48-bit response, nothing checked.
pub const ACMD41: u32 = 0xA902_0000;

/// What a command answers when it failed or timed out.
pub const CMD_FAILED: u32 = 0xFFFF_FFFF;

/// `nop` instructions per millisecond on a Cortex-A72 at 1.5 GHz.
pub const ITERS_PER_MS: u32 = 1_500_000;
/// Polls of 10 ms, 100 ms and 200 ms.
pub const POLLS_10_MS: u32 = 15_000_000;
pub const POLLS_100_MS: u32 = 150_000_000;
pub const POLLS_200_MS: u32 = 300_000_000;

// The VideoCore mailbox.
pub const MBOX_READ: u64 = 0xFE00_B880;
pub const MBOX_STATUS: u64 = 0xFE00_B898;
pub const MBOX_WRITE: u64 = 0xFE00_B8A0;
pub const MBOX_FULL: u32 = 0x8000_0000;
pub const MBOX_EMPTY: u32 = 0x4000_0000;
/// The property channel.
pub const MBOX_CH: u32 = 8;
/// How often a full mailbox is looked at before giving up.
pub const MBOX_FULL_POLLS: u32 = 10_000;
/// How often an empty mailbox is looked at before giving up.
pub const MBOX_EMPTY_POLLS: u32 = 100_000;
/// The EMMC2 clock where the firmware gives no usable answer.
pub const DEFAULT_CLOCK_HZ: u32 = 200_000_000;

/// What is known of the card.
#[derive(Clone, Copy, PartialEq, Eq, Structural, Debug)]
pub struct SdCard {
    /// Relative card address.
    pub rca: u32,
    /// Block addressing (SDHC, SDXC) instead of byte addressing (SDSC).
    pub hccs: bool,
}

/// The mailbox message that takes GPIO 132 (the card's 1.8 V supply) low.
pub fn supply_message() -> (m: [u32; 8])
    ensures
        m@ == seq![32u32, 0, 0x0003_8041, 8, 8, 132, 0, 0],
{
    let m: [u32; 8] = [32, 0, 0x0003_8041, 8, 8, 132, 0, 0];
    assert(m@ =~= seq![32u32, 0, 0x0003_8041, 8, 8, 132, 0, 0]);
    m
}

/// The mailbox message that asks for the rate of clock 12 (EMMC2).
pub fn clock_message() -> (m: [u32; 8])
    ensures
        m@ == seq![32u32, 0, 0x0003_0002, 8, 4, 12, 0, 0],
{
    let m: [u32; 8] = [32, 0, 0x0003_0002, 8, 4, 12, 0, 0];
    assert(m@ =~= seq![32u32, 0, 0x0003_0002, 8, 4, 12, 0, 0]);
    m
}

// ── Clock divisor ──────────────────────────────────────────────────────────

/// The divisor for `target` out of `base`: the smallest `d` with
/// `base / (2 * d) <= target`, capped at ten bits; 0 (undivided) where the base
/// clock is slow enough.
pub open spec fn clock_divisor(base: int, target: int) -> int {
    if target >= base {
        0
    } else {
        let d = (base + 2 * target - 1) / (2 * target);
        if d > 0x3FF {
            0x3FF
        } else {
            d
        }
    }
}

/// A ten-bit divisor as the CONTROL1 field: the low eight bits in bits 15..8,
/// the high two in bits 7..6.
pub open spec fn divisor_field(d: int) -> int {
    (d % 256) * 256 + (d / 256) * 64
}

/// The CONTROL1 clock field for `target_hz` out of `base_hz` (SDHCI 3.0 ten-bit
/// divided clock mode).
pub fn calc_clock_field(base_hz: u32, target_hz: u32) -> (field: u32)
    requires
        target_hz < base_hz ==> 0 < target_hz && base_hz + 2 * target_hz <= u32::MAX,
    ensures
        field == divisor_field(clock_divisor(base_hz as int, target_hz as int)),
        field & C1_NOT_DIVISOR == 0,
{
    if target_hz >= base_hz {
        assert(0u32 & 0xFFFF_003Fu32 == 0) by (bit_vector);
        return 0;
    }
    let mut divisor: u32 = (base_hz + 2 * target_hz - 1) / (2 * target_hz);
    if divisor > 0x3FF {
        divisor = 0x3FF;
    }
    let lo: u32 = (divisor & 0xFF) << 8;
    let hi: u32 = ((divisor >> 8) & 0x3) << 6;
    assert(lo | hi == (divisor % 256) * 256 + (divisor / 256) * 64) by (bit_vector)
        requires
            divisor <= 0x3FF,
            lo == (divisor & 0xFF) << 8,
            hi == ((divisor >> 8) & 0x3) << 6,
    ;
    assert((lo | hi) & 0xFFFF_003F == 0) by (bit_vector)
        requires
            lo == (divisor & 0xFF) << 8,
            hi == ((divisor >> 8) & 0x3) << 6,
    ;
    lo | hi
}

/// A divided clock is never faster than the target, and the next smaller divisor
/// would be too fast, as long as the divisor fits in ten bits.
pub proof fn lemma_divided_clock_is_closest(base: int, target: int)
    requires
        0 < target < base <= 0x7FE * target,
    ensures
        base <= 2 * clock_divisor(base, target) * target,
        2 * (clock_divisor(base, target) - 1) * target < base,
{
    let t2 = 2 * target;
    let q = (base + t2 - 1) / t2;
    vstd::arithmetic::div_mod::lemma_fundamental_div_mod(base + t2 - 1, t2);
    vstd::arithmetic::div_mod::lemma_mod_bound(base + t2 - 1, t2);
    let r = (base + t2 - 1) % t2;
    assert(t2 * q == 2 * q * target) by (nonlinear_arith)
        requires
            t2 == 2 * target,
    ;
    assert(2 * (q - 1) * target == 2 * q * target - t2) by (nonlinear_arith)
        requires
            t2 == 2 * target,
    ;
    if q > 0x3FF {
        assert(2 * q * target >= 0x800 * target) by (nonlinear_arith)
            requires
                q >= 0x400,
                target > 0,
        ;
    }
}

// ── Register-level building blocks ─────────────────────────────────────────

/// Pausing for `ms` milliseconds.
pub open spec fn sleep_op(ms: int) -> RegOp {
    RegOp::Nops((ms * ITERS_PER_MS) as u64)
}

fn sleep_ms(ms: u32) -> (op: RegOp)
    ensures
        op == sleep_op(ms as int),
{
    assert(ms as u64 * ITERS_PER_MS as u64 <= u64::MAX) by (nonlinear_arith)
        requires
            ms <= u32::MAX,
            ITERS_PER_MS == 1_500_000,
    ;
    RegOp::Nops(ms as u64 * ITERS_PER_MS as u64)
}

/// Reads `addr` up to `n` times, with a `nop` after each miss, until the bits in
/// `mask` are all clear (`set` false) or not all clear (`set` true). The value
/// says whether that was seen.
pub open spec fn poll_run(addr: u64, mask: u32, set: bool, n: nat, h: Seq<u32>) -> RegRun<bool>
    decreases n,
{
    if n == 0 {
        Run::Finished(false, h)
    } else {
        op_run(RegOp::Read(addr), h).and_then(
            |v: u32, h: Seq<u32>|
                if (v & mask != 0) == set {
                    Run::Finished(true, h)
                } else {
                    op_run(RegOp::Nops(1), h).and_then(
                        |_v: u32, h: Seq<u32>| poll_run(addr, mask, set, (n - 1) as nat, h),
                    )
                },
        )
    }
}

enum PollStage {
    Read,
    Nop,
    Done(bool),
}

/// A bounded poll of one register.
struct Poll {
    addr: u64,
    mask: u32,
    set: bool,
    left: u32,
    stage: PollStage,
}

impl Poll {
    closed spec fn run(self, h: Seq<u32>) -> RegRun<bool> {
        match self.stage {
            PollStage::Read => poll_run(self.addr, self.mask, self.set, self.left as nat, h),
            PollStage::Nop => op_run(RegOp::Nops(1), h).and_then(
                |_v: u32, h: Seq<u32>|
                    poll_run(self.addr, self.mask, self.set, self.left as nat, h),
            ),
            PollStage::Done(v) => Run::Finished(v, h),
        }
    }

    fn new(addr: u64, mask: u32, set: bool, polls: u32) -> (m: Poll)
        requires
            polls > 0,
        ensures
            m.run(Seq::empty()) is Wants,
            forall|h: Seq<u32>| #[trigger]
                m.run(h) == poll_run(addr, mask, set, polls as nat, h),
    {
        Poll { addr, mask, set, left: polls, stage: PollStage::Read }
    }

    fn next(&self) -> (r: Next<RegOp, bool>)
        ensures
            r == self.run(Seq::empty()).asks(),
            r matches Next::Done(v) ==> forall|h: Seq<u32>| #[trigger]
                self.run(h) == RegRun::Finished(v, h),
    {
        match self.stage {
            PollStage::Read => if self.left == 0 {
                Next::Done(false)
            } else {
                Next::Op(RegOp::Read(self.addr))
            },
            PollStage::Nop => Next::Op(RegOp::Nops(1)),
            PollStage::Done(v) => Next::Done(v),
        }
    }

    fn answer(&mut self, r: u32)
        requires
            old(self).run(Seq::empty()) is Wants,
        ensures
            forall|h: Seq<u32>|
                #![trigger final(self).run(h)]
                #![trigger old(self).run(cons(r, h))]
                final(self).run(h) == old(self).run(cons(r, h)),
    {
        match self.stage {
            PollStage::Read => {
                if (r & self.mask != 0) == self.set {
                    self.stage = PollStage::Done(true);
                } else {
                    self.left = self.left - 1;
                    self.stage = PollStage::Nop;
                }
            },
            PollStage::Nop => {
                self.stage = PollStage::Read;
            },
            PollStage::Done(_) => {},
        }
    }
}

/// Replaces a register's value `v` by `(v & keep) | set`, then pauses for
/// `pause_ms` milliseconds if that is not 0.
pub open spec fn update_run(addr: u64, keep: u32, set: u32, pause_ms: int, h: Seq<u32>) -> RegRun<
    (),
> {
    op_run(RegOp::Read(addr), h).and_then(
        |v: u32, h: Seq<u32>|
            batch_run(
                if pause_ms == 0 {
                    seq![RegOp::Write(addr, v & keep | set)]
                } else {
                    seq![RegOp::Write(addr, v & keep | set), sleep_op(pause_ms)]
                },
                h,
            ),
    )
}

/// A list of operations under way.
struct Batch {
    ops: Vec<RegOp>,
    pos: usize,
}

impl Batch {
    closed spec fn wf(self) -> bool {
        self.pos <= self.ops@.len()
    }

    closed spec fn run(self, h: Seq<u32>) -> RegRun<()> {
        batch_run(self.ops@.skip(self.pos as int), h)
    }

    fn new(ops: Vec<RegOp>) -> (m: Batch)
        ensures
            m.wf(),
            ops@.len() > 0 ==> m.run(Seq::empty()) is Wants,
            forall|h: Seq<u32>| #[trigger] m.run(h) == batch_run(ops@, h),
    {
        assert(ops@.skip(0) =~= ops@);
        Batch { ops, pos: 0 }
    }

    fn next(&self) -> (r: Next<RegOp, ()>)
        requires
            self.wf(),
        ensures
            r == self.run(Seq::empty()).asks(),
            r matches Next::Done(v) ==> forall|h: Seq<u32>| #[trigger]
                self.run(h) == RegRun::Finished(v, h),
    {
        if self.pos < self.ops.len() {
            Next::Op(self.ops[self.pos])
        } else {
            Next::Done(())
        }
    }

    fn answer(&mut self, r: u32)
        requires
            old(self).wf(),
            old(self).run(Seq::empty()) is Wants,
        ensures
            final(self).wf(),
            forall|h: Seq<u32>|
                #![trigger final(self).run(h)]
                #![trigger old(self).run(cons(r, h))]
                final(self).run(h) == old(self).run(cons(r, h)),
    {
        assert(self.ops@.skip(self.pos as int).drop_first() =~= self.ops@.skip(self.pos + 1));
        assert(self.pos < self.ops.len());
        self.pos = self.pos + 1;
    }
}

enum UpdateStage {
    Read,
    Write(Batch),
}

/// An [`update_run`] under way.
struct Update {
    addr: u64,
    keep: u32,
    set: u32,
    pause_ms: u32,
    stage: UpdateStage,
}

impl Update {
    closed spec fn wf(self) -> bool {
        match self.stage {
            UpdateStage::Read => true,
            UpdateStage::Write(b) => b.wf(),
        }
    }

    closed spec fn run(self, h: Seq<u32>) -> RegRun<()> {
        match self.stage {
            UpdateStage::Read => update_run(
                self.addr,
                self.keep,
                self.set,
                self.pause_ms as int,
                h,
            ),
            UpdateStage::Write(b) => b.run(h),
        }
    }

    fn new(addr: u64, keep: u32, set: u32, pause_ms: u32) -> (m: Update)
        ensures
            m.wf(),
            m.run(Seq::empty()) is Wants,
            forall|h: Seq<u32>| #[trigger]
                m.run(h) == update_run(addr, keep, set, pause_ms as int, h),
    {
        Update { addr, keep, set, pause_ms, stage: UpdateStage::Read }
    }

    fn next(&self) -> (r: Next<RegOp, ()>)
        requires
            self.wf(),
        ensures
            r == self.run(Seq::empty()).asks(),
            r matches Next::Done(v) ==> forall|h: Seq<u32>| #[trigger]
                self.run(h) == RegRun::Finished(v, h),
    {
        match &self.stage {
            UpdateStage::Read => Next::Op(RegOp::Read(self.addr)),
            UpdateStage::Write(b) => b.next(),
        }
    }

    fn answer(&mut self, r: u32)
        requires
            old(self).wf(),
            old(self).run(Seq::empty()) is Wants,
        ensures
            final(self).wf(),
            forall|h: Seq<u32>|
                #![trigger final(self).run(h)]
                #![trigger old(self).run(cons(r, h))]
                final(self).run(h) == old(self).run(cons(r, h)),
    {
        match &mut self.stage {
            UpdateStage::Read => {
                let mut ops: Vec<RegOp> = Vec::new();
                ops.push(RegOp::Write(self.addr, r & self.keep | self.set));
                if self.pause_ms != 0 {
                    ops.push(sleep_ms(self.pause_ms));
                    assert(ops@ =~= seq![
                        RegOp::Write(self.addr, r & self.keep | self.set),
                        sleep_op(self.pause_ms as int),
                    ]);
                } else {
                    assert(ops@ =~= seq![RegOp::Write(self.addr, r & self.keep | self.set)]);
                }
                self.stage = UpdateStage::Write(Batch::new(ops));
            },
            UpdateStage::Write(b) => {
                b.answer(r);
            },
        }
    }
}

/// Waits up to 200 ms for one of the interrupts in `mask`, acknowledging what it
/// saw. An error interrupt ends the wait; the value says whether `mask` came.
pub open spec fn interrupt_run(mask: u32, n: nat, h: Seq<u32>) -> RegRun<bool>
    decreases n,
{
    if n == 0 {
        Run::Finished(false, h)
    } else {
        op_run(RegOp::Read(EMMC_INTERRUPT), h).and_then(
            |irpt: u32, h: Seq<u32>|
                if irpt & INT_ERROR_MASK != 0 {
                    op_run(RegOp::Write(EMMC_INTERRUPT, irpt), h).and_then(
                        |_v: u32, h: Seq<u32>| Run::Finished(false, h),
                    )
                } else if irpt & mask != 0 {
                    op_run(RegOp::Write(EMMC_INTERRUPT, mask), h).and_then(
                        |_v: u32, h: Seq<u32>| Run::Finished(true, h),
                    )
                } else {
                    op_run(RegOp::Nops(1), h).and_then(
                        |_v: u32, h: Seq<u32>| interrupt_run(mask, (n - 1) as nat, h),
                    )
                },
        )
    }
}

enum IrqStage {
    Read,
    Nop,
    Acknowledge(u32, bool),
    Done(bool),
}

/// An [`interrupt_run`] under way.
struct WaitInterrupt {
    mask: u32,
    left: u32,
    stage: IrqStage,
}

impl WaitInterrupt {
    closed spec fn run(self, h: Seq<u32>) -> RegRun<bool> {
        match self.stage {
            IrqStage::Read => interrupt_run(self.mask, self.left as nat, h),
            IrqStage::Nop => op_run(RegOp::Nops(1), h).and_then(
                |_v: u32, h: Seq<u32>| interrupt_run(self.mask, self.left as nat, h),
            ),
            IrqStage::Acknowledge(bits, seen) => op_run(
                RegOp::Write(EMMC_INTERRUPT, bits),
                h,
            ).and_then(|_v: u32, h: Seq<u32>| Run::Finished(seen, h)),
            IrqStage::Done(seen) => Run::Finished(seen, h),
        }
    }

    fn new(mask: u32) -> (m: WaitInterrupt)
        ensures
            m.run(Seq::empty()) is Wants,
            forall|h: Seq<u32>| #[trigger]
                m.run(h) == interrupt_run(mask, POLLS_200_MS as nat, h),
    {
        WaitInterrupt { mask, left: POLLS_200_MS, stage: IrqStage::Read }
    }

    fn next(&self) -> (r: Next<RegOp, bool>)
        ensures
            r == self.run(Seq::empty()).asks(),
            r matches Next::Done(v) ==> forall|h: Seq<u32>| #[trigger]
                self.run(h) == RegRun::Finished(v, h),
    {
        match self.stage {
            IrqStage::Read => if self.left == 0 {
                Next::Done(false)
            } else {
                Next::Op(RegOp::Read(EMMC_INTERRUPT))
            },
            IrqStage::Nop => Next::Op(RegOp::Nops(1)),
            IrqStage::Acknowledge(bits, _) => Next::Op(RegOp::Write(EMMC_INTERRUPT, bits)),
            IrqStage::Done(seen) => Next::Done(seen),
        }
    }

    fn answer(&mut self, r: u32)
        requires
            old(self).run(Seq::empty()) is Wants,
        ensures
            forall|h: Seq<u32>|
                #![trigger final(self).run(h)]
                #![trigger old(self).run(cons(r, h))]
                final(self).run(h) == old(self).run(cons(r, h)),
    {
        match self.stage {
            IrqStage::Read => {
                if r & INT_ERROR_MASK != 0 {
                    self.stage = IrqStage::Acknowledge(r, false);
                } else if r & self.mask != 0 {
                    self.stage = IrqStage::Acknowledge(self.mask, true);
                } else {
                    self.left = self.left - 1;
                    self.stage = IrqStage::Nop;
                }
            },
            IrqStage::Nop => {
                self.stage = IrqStage::Read;
            },
            IrqStage::Acknowledge(_, seen) => {
                self.stage = IrqStage::Done(seen);
            },
            IrqStage::Done(_) => {},
        }
    }
}

// ── SD clock ───────────────────────────────────────────────────────────────

/// All bits but the SD clock enable.
pub const C1_NOT_CLK_EN: u32 = 0xFFFF_FFFB;
pub const ALL_BITS: u32 = 0xFFFF_FFFF;

/// Sets the SD clock: waits for the lines to be idle, stops the clock, programs
/// the divisor, waits for the internal clock to be stable, starts the clock.
pub open spec fn set_clock_run(base_hz: u32, target_hz: u32, h: Seq<u32>) -> RegRun<()> {
    poll_run(EMMC_STATUS, SR_INHIBIT, false, POLLS_10_MS as nat, h).and_then(
        |_idle: bool, h: Seq<u32>|
            update_run(EMMC_CONTROL1, C1_NOT_CLK_EN, 0, 2, h).and_then(
                |_v: (), h: Seq<u32>| program_divisor_run(base_hz, target_hz, h),
            ),
    )
}

/// The part of [`set_clock_run`] that starts with the clock stopped.
pub open spec fn program_divisor_run(base_hz: u32, target_hz: u32, h: Seq<u32>) -> RegRun<()> {
    let field = divisor_field(clock_divisor(base_hz as int, target_hz as int)) as u32;
    update_run(EMMC_CONTROL1, C1_NOT_DIVISOR, field | C1_CLK_INTLEN, 2, h).and_then(
        |_v: (), h: Seq<u32>| start_clock_run(h),
    )
}

/// The part of [`set_clock_run`] that starts with the divisor programmed.
pub open spec fn start_clock_run(h: Seq<u32>) -> RegRun<()> {
    poll_run(EMMC_CONTROL1, C1_CLK_STABLE, true, POLLS_10_MS as nat, h).and_then(
        |_stable: bool, h: Seq<u32>| update_run(EMMC_CONTROL1, ALL_BITS, C1_CLK_EN, 2, h),
    )
}

enum ClockStage {
    Idle(Poll),
    Stop(Update),
    Divide(Update),
    Stable(Poll),
    Start(Update),
}

/// A [`set_clock_run`] under way.
struct SetClock {
    base_hz: u32,
    target_hz: u32,
    stage: ClockStage,
}

/// The clocks for which [`calc_clock_field`] is defined.
spec fn clock_ok(base_hz: u32, target_hz: u32) -> bool {
    target_hz > 0 && base_hz + 2 * target_hz <= u32::MAX
}

impl SetClock {
    closed spec fn wf(self) -> bool {
        &&& clock_ok(self.base_hz, self.target_hz)
        &&& match self.stage {
            ClockStage::Idle(p) => p.run(Seq::empty()) is Wants,
            ClockStage::Stop(u) => u.wf() && u.run(Seq::empty()) is Wants,
            ClockStage::Divide(u) => u.wf() && u.run(Seq::empty()) is Wants,
            ClockStage::Stable(p) => p.run(Seq::empty()) is Wants,
            ClockStage::Start(u) => u.wf(),
        }
    }

    closed spec fn run(self, h: Seq<u32>) -> RegRun<()> {
        let base_hz = self.base_hz;
        let target_hz = self.target_hz;
        match self.stage {
            ClockStage::Idle(p) => p.run(h).and_then(
                |_idle: bool, h: Seq<u32>|
                    update_run(EMMC_CONTROL1, C1_NOT_CLK_EN, 0, 2, h).and_then(
                        |_v: (), h: Seq<u32>| program_divisor_run(base_hz, target_hz, h),
                    ),
            ),
            ClockStage::Stop(u) => u.run(h).and_then(
                |_v: (), h: Seq<u32>| program_divisor_run(base_hz, target_hz, h),
            ),
            ClockStage::Divide(u) => u.run(h).and_then(|_v: (), h: Seq<u32>| start_clock_run(h)),
            ClockStage::Stable(p) => p.run(h).and_then(
                |_stable: bool, h: Seq<u32>| update_run(EMMC_CONTROL1, ALL_BITS, C1_CLK_EN, 2, h),
            ),
            ClockStage::Start(u) => u.run(h),
        }
    }

    fn new(base_hz: u32, target_hz: u32) -> (m: SetClock)
        requires
            clock_ok(base_hz, target_hz),
        ensures
            m.wf(),
            m.run(Seq::empty()) is Wants,
            forall|h: Seq<u32>| #[trigger] m.run(h) == set_clock_run(base_hz, target_hz, h),
    {
        SetClock {
            base_hz,
            target_hz,
            stage: ClockStage::Idle(Poll::new(EMMC_STATUS, SR_INHIBIT, false, POLLS_10_MS)),
        }
    }

    fn next(&self) -> (r: Next<RegOp, ()>)
        requires
            self.wf(),
        ensures
            r == self.run(Seq::empty()).asks(),
            r matches Next::Done(v) ==> forall|h: Seq<u32>| #[trigger]
                self.run(h) == RegRun::Finished(v, h),
    {
        match &self.stage {
            ClockStage::Idle(p) | ClockStage::Stable(p) => match p.next() {
                Next::Op(op) => Next::Op(op),
                Next::Done(_) => Next::Done(()),
            },
            ClockStage::Stop(u) | ClockStage::Divide(u) | ClockStage::Start(u) => u.next(),
        }
    }

    fn answer(&mut self, r: u32)
        requires
            old(self).wf(),
            old(self).run(Seq::empty()) is Wants,
        ensures
            final(self).wf(),
            forall|h: Seq<u32>|
                #![trigger final(self).run(h)]
                #![trigger old(self).run(cons(r, h))]
                final(self).run(h) == old(self).run(cons(r, h)),
    {
        match &mut self.stage {
            ClockStage::Idle(p) => {
                p.answer(r);
                if let Next::Done(_) = p.next() {
                    self.stage = ClockStage::Stop(Update::new(EMMC_CONTROL1, C1_NOT_CLK_EN, 0, 2));
                }
            },
            ClockStage::Stop(u) => {
                u.answer(r);
                if let Next::Done(_) = u.next() {
                    let field: u32 = calc_clock_field(self.base_hz, self.target_hz);
                    self.stage = ClockStage::Divide(
                        Update::new(EMMC_CONTROL1, C1_NOT_DIVISOR, field | C1_CLK_INTLEN, 2),
                    );
                }
            },
            ClockStage::Divide(u) => {
                u.answer(r);
                if let Next::Done(_) = u.next() {
                    self.stage = ClockStage::Stable(
                        Poll::new(EMMC_CONTROL1, C1_CLK_STABLE, true, POLLS_10_MS),
                    );
                }
            },
            ClockStage::Stable(p) => {
                p.answer(r);
                if let Next::Done(_) = p.next() {
                    self.stage = ClockStage::Start(Update::new(EMMC_CONTROL1, ALL_BITS, C1_CLK_EN, 2));
                }
            },
            ClockStage::Start(u) => {
                u.answer(r);
            },
        }
    }
}

// ── VideoCore mailbox ──────────────────────────────────────────────────────

/// The mailbox word that announces the message at `phys` on the property
/// channel.
pub open spec fn mailbox_word(phys: u64) -> u32 {
    ((phys & 0xFFFF_FFFF_FFFF_FFF0) as u32) | MBOX_CH
}

/// Sends the message at `phys`, with its code word (offset 4) and its answer word
/// (offset 24) cleared, and waits for the answer. The value says whether it came.
pub open spec fn property_run(phys: u64, h: Seq<u32>) -> RegRun<bool> {
    batch_run(
        seq![
            RegOp::Write((phys + 4) as u64, 0),
            RegOp::Write((phys + 24) as u64, 0),
            RegOp::DataSyncBarrier,
        ],
        h,
    ).and_then(|_v: (), h: Seq<u32>| post_run(phys, MBOX_FULL_POLLS as nat, h))
}

/// Posts the message once the mailbox has space, looking at most `t` times.
pub open spec fn post_run(phys: u64, t: nat, h: Seq<u32>) -> RegRun<bool>
    decreases t,
{
    op_run(RegOp::Read(MBOX_STATUS), h).and_then(
        |status: u32, h: Seq<u32>|
            if status & MBOX_FULL == 0 {
                op_run(RegOp::Write(MBOX_WRITE, mailbox_word(phys)), h).and_then(
                    |_v: u32, h: Seq<u32>| reply_run(MBOX_EMPTY_POLLS as nat, h),
                )
            } else if t <= 1 {
                Run::Finished(false, h)
            } else {
                post_run(phys, (t - 1) as nat, h)
            },
    )
}

/// Takes words out of the mailbox until one comes on the property channel, giving
/// up once the mailbox was seen empty `t` times.
pub open spec fn reply_run(t: nat, h: Seq<u32>) -> RegRun<bool>
    decreases h.len(),
{
    if h.len() == 0 {
        Run::Wants(RegOp::Read(MBOX_STATUS))
    } else if h[0] & MBOX_EMPTY != 0 {
        if t <= 1 {
            Run::Finished(false, h.drop_first())
        } else {
            reply_run((t - 1) as nat, h.drop_first())
        }
    } else {
        reply_word_run(t, h.drop_first())
    }
}

/// The part of [`reply_run`] after the mailbox was seen not to be empty.
pub open spec fn reply_word_run(t: nat, h: Seq<u32>) -> RegRun<bool>
    decreases h.len(),
{
    if h.len() == 0 {
        Run::Wants(RegOp::Read(MBOX_READ))
    } else if h[0] & 0xF == MBOX_CH {
        op_run(RegOp::DataSyncBarrier, h.drop_first()).and_then(
            |_v: u32, h: Seq<u32>| Run::Finished(true, h),
        )
    } else {
        reply_run(t, h.drop_first())
    }
}

/// Sends the message at `phys` and reads the word at `offset` of the answer, if
/// it came.
pub open spec fn property_read_run(phys: u64, offset: u64, h: Seq<u32>) -> RegRun<Option<u32>> {
    property_run(phys, h).and_then(
        |came: bool, h: Seq<u32>|
            if came {
                op_run(RegOp::Read((phys + offset) as u64), h).and_then(
                    |v: u32, h: Seq<u32>| Run::Finished(Some(v), h),
                )
            } else {
                Run::Finished(None, h)
            },
    )
}

enum PropertyStage {
    Clear(Batch),
    Space(u32),
    Post,
    Status(u32),
    Fetch(u32),
    Barrier,
    Answer,
    Done(Option<u32>),
}

/// A [`property_read_run`] under way.
struct PropertyRead {
    phys: u64,
    offset: u64,
    stage: PropertyStage,
}

impl PropertyRead {
    closed spec fn wf(self) -> bool {
        &&& self.phys + 24 <= u64::MAX
        &&& self.offset <= 24
        &&& match self.stage {
            PropertyStage::Clear(b) => b.wf() && b.run(Seq::empty()) is Wants,
            PropertyStage::Space(left) => left > 0,
            PropertyStage::Status(left) => left > 0,
            PropertyStage::Fetch(left) => left > 0,
            _ => true,
        }
    }

    spec fn answer_run(phys: u64, offset: u64, came: bool, h: Seq<u32>) -> RegRun<Option<u32>> {
        if came {
            op_run(RegOp::Read((phys + offset) as u64), h).and_then(
                |v: u32, h: Seq<u32>| Run::Finished(Some(v), h),
            )
        } else {
            Run::Finished(None, h)
        }
    }

    closed spec fn run(self, h: Seq<u32>) -> RegRun<Option<u32>> {
        let phys = self.phys;
        let k = |came: bool, h: Seq<u32>| Self::answer_run(phys, self.offset, came, h);
        match self.stage {
            PropertyStage::Clear(b) => b.run(h).and_then(
                |_v: (), h: Seq<u32>| post_run(phys, MBOX_FULL_POLLS as nat, h),
            ).and_then(k),
            PropertyStage::Space(left) => post_run(phys, left as nat, h).and_then(k),
            PropertyStage::Post => op_run(
                RegOp::Write(MBOX_WRITE, mailbox_word(phys)),
                h,
            ).and_then(|_v: u32, h: Seq<u32>| reply_run(MBOX_EMPTY_POLLS as nat, h)).and_then(k),
            PropertyStage::Status(left) => reply_run(left as nat, h).and_then(k),
            PropertyStage::Fetch(left) => reply_word_run(left as nat, h).and_then(k),
            PropertyStage::Barrier => op_run(RegOp::DataSyncBarrier, h).and_then(
                |_v: u32, h: Seq<u32>| Self::answer_run(phys, self.offset, true, h),
            ),
            PropertyStage::Answer => Self::answer_run(phys, self.offset, true, h),
            PropertyStage::Done(v) => Run::Finished(v, h),
        }
    }

    fn new(phys: u64, offset: u64) -> (m: PropertyRead)
        requires
            phys + 24 <= u64::MAX,
            offset <= 24,
        ensures
            m.wf(),
            m.run(Seq::empty()) is Wants,
            forall|h: Seq<u32>| #[trigger] m.run(h) == property_read_run(phys, offset, h),
    {
        let mut ops: Vec<RegOp> = Vec::new();
        ops.push(RegOp::Write(phys + 4, 0));
        ops.push(RegOp::Write(phys + 24, 0));
        ops.push(RegOp::DataSyncBarrier);
        assert(ops@ =~= seq![
            RegOp::Write((phys + 4) as u64, 0),
            RegOp::Write((phys + 24) as u64, 0),
            RegOp::DataSyncBarrier,
        ]);
        PropertyRead { phys, offset, stage: PropertyStage::Clear(Batch::new(ops)) }
    }

    fn next(&self) -> (r: Next<RegOp, Option<u32>>)
        requires
            self.wf(),
        ensures
            r == self.run(Seq::empty()).asks(),
            r matches Next::Done(v) ==> forall|h: Seq<u32>| #[trigger]
                self.run(h) == RegRun::Finished(v, h),
    {
        match &self.stage {
            PropertyStage::Clear(b) => match b.next() {
                Next::Op(op) => Next::Op(op),
                Next::Done(_) => Next::Done(None),
            },
            PropertyStage::Space(_) => Next::Op(RegOp::Read(MBOX_STATUS)),
            PropertyStage::Post => Next::Op(
                RegOp::Write(
                    MBOX_WRITE,
                    ((self.phys & 0xFFFF_FFFF_FFFF_FFF0) as u32) | MBOX_CH,
                ),
            ),
            PropertyStage::Status(_) => Next::Op(RegOp::Read(MBOX_STATUS)),
            PropertyStage::Fetch(_) => Next::Op(RegOp::Read(MBOX_READ)),
            PropertyStage::Barrier => Next::Op(RegOp::DataSyncBarrier),
            PropertyStage::Answer => Next::Op(RegOp::Read(self.phys + self.offset)),
            PropertyStage::Done(v) => Next::Done(*v),
        }
    }

    fn answer(&mut self, r: u32)
        requires
            old(self).wf(),
            old(self).run(Seq::empty()) is Wants,
        ensures
            final(self).wf(),
            forall|h: Seq<u32>|
                #![trigger final(self).run(h)]
                #![trigger old(self).run(cons(r, h))]
                final(self).run(h) == old(self).run(cons(r, h)),
    {
        match &mut self.stage {
            PropertyStage::Clear(b) => {
                b.answer(r);
                if let Next::Done(_) = b.next() {
                    self.stage = PropertyStage::Space(MBOX_FULL_POLLS);
                }
            },
            PropertyStage::Space(left) => {
                if r & MBOX_FULL == 0 {
                    self.stage = PropertyStage::Post;
                } else if *left == 1 {
                    self.stage = PropertyStage::Done(None);
                } else {
                    *left = *left - 1;
                }
            },
            PropertyStage::Post => {
                self.stage = PropertyStage::Status(MBOX_EMPTY_POLLS);
            },
            PropertyStage::Status(left) => {
                if r & MBOX_EMPTY != 0 {
                    if *left == 1 {
                        self.stage = PropertyStage::Done(None);
                    } else {
                        *left = *left - 1;
                    }
                } else {
                    let left: u32 = *left;
                    self.stage = PropertyStage::Fetch(left);
                }
            },
            PropertyStage::Fetch(left) => {
                if r & 0xF == MBOX_CH {
                    self.stage = PropertyStage::Barrier;
                } else {
                    let left: u32 = *left;
                    self.stage = PropertyStage::Status(left);
                }
            },
            PropertyStage::Barrier => {
                self.stage = PropertyStage::Answer;
            },
            PropertyStage::Answer => {
                self.stage = PropertyStage::Done(Some(r));
            },
            PropertyStage::Done(_) => {},
        }
    }
}

/// Takes the card's 1.8 V supply off, so that it runs at 3.3 V. Whether the
/// firmware answered does not matter.
pub open spec fn disable_18v_supply_run(phys: u64, h: Seq<u32>) -> RegRun<Option<u32>> {
    property_read_run(phys, 4, h)
}

/// The EMMC2 clock rate, from the firmware's answer if it gave one.
pub open spec fn usable_clock(answer: Option<u32>) -> u32 {
    match answer {
        Some(hz) => if 0 < hz <= 400_000_000 {
            hz
        } else {
            DEFAULT_CLOCK_HZ
        },
        None => DEFAULT_CLOCK_HZ,
    }
}

/// Asks the firmware for the EMMC2 clock rate.
pub open spec fn get_emmc_clock_hz_run(phys: u64, h: Seq<u32>) -> RegRun<u32> {
    property_read_run(phys, 24, h).and_then(
        |answer: Option<u32>, h: Seq<u32>| Run::Finished(usable_clock(answer), h),
    )
}

fn get_usable_clock(answer: Option<u32>) -> (hz: u32)
    ensures
        hz == usable_clock(answer),
        0 < hz <= 400_000_000,
{
    match answer {
        Some(hz) => if hz > 0 && hz <= 400_000_000 {
            hz
        } else {
            DEFAULT_CLOCK_HZ
        },
        None => DEFAULT_CLOCK_HZ,
    }
}

// ── Commands ───────────────────────────────────────────────────────────────

/// Issues one command, without a prefix: waits for the lines to be idle, clears
/// the interrupts, writes argument and command, waits for completion and reads
/// the response. The value is the response, or [`CMD_FAILED`].
pub open spec fn issue_run(cmd: u32, arg: u32, h: Seq<u32>) -> RegRun<u32> {
    poll_run(EMMC_STATUS, SR_INHIBIT, false, POLLS_10_MS as nat, h).and_then(
        |idle: bool, h: Seq<u32>|
            if idle {
                issue_write_run(cmd, arg, h)
            } else {
                Run::Finished(CMD_FAILED, h)
            },
    )
}

/// The part of [`issue_run`] that starts with the lines idle.
pub open spec fn issue_write_run(cmd: u32, arg: u32, h: Seq<u32>) -> RegRun<u32> {
    batch_run(issue_ops(cmd, arg), h).and_then(|_v: (), h: Seq<u32>| issue_wait_run(h))
}

pub open spec fn issue_ops(cmd: u32, arg: u32) -> Seq<RegOp> {
    seq![
        RegOp::Write(EMMC_INTERRUPT, 0xFFFF_FFFF),
        RegOp::Write(EMMC_ARG1, arg),
        RegOp::Write(EMMC_CMDTM, cmd & 0x7FFF_FFFF),
    ]
}

/// The part of [`issue_run`] that starts with the command written.
pub open spec fn issue_wait_run(h: Seq<u32>) -> RegRun<u32> {
    interrupt_run(INT_CMD_DONE, POLLS_200_MS as nat, h).and_then(
        |done: bool, h: Seq<u32>|
            if done {
                op_run(RegOp::Read(EMMC_RESP0), h)
            } else {
                Run::Finished(CMD_FAILED, h)
            },
    )
}

enum IssueStage {
    Idle(Poll),
    Write(Batch),
    Wait(WaitInterrupt),
    Response,
    Done(u32),
}

/// An [`issue_run`] under way.
struct Issue {
    cmd: u32,
    arg: u32,
    stage: IssueStage,
}

impl Issue {
    closed spec fn wf(self) -> bool {
        match self.stage {
            IssueStage::Idle(p) => p.run(Seq::empty()) is Wants,
            IssueStage::Write(b) => b.wf() && b.run(Seq::empty()) is Wants,
            IssueStage::Wait(w) => w.run(Seq::empty()) is Wants,
            _ => true,
        }
    }

    closed spec fn run(self, h: Seq<u32>) -> RegRun<u32> {
        let cmd = self.cmd;
        let arg = self.arg;
        match self.stage {
            IssueStage::Idle(p) => p.run(h).and_then(
                |idle: bool, h: Seq<u32>|
                    if idle {
                        issue_write_run(cmd, arg, h)
                    } else {
                        Run::Finished(CMD_FAILED, h)
                    },
            ),
            IssueStage::Write(b) => b.run(h).and_then(|_v: (), h: Seq<u32>| issue_wait_run(h)),
            IssueStage::Wait(w) => w.run(h).and_then(
                |done: bool, h: Seq<u32>|
                    if done {
                        op_run(RegOp::Read(EMMC_RESP0), h)
                    } else {
                        Run::Finished(CMD_FAILED, h)
                    },
            ),
            IssueStage::Response => op_run(RegOp::Read(EMMC_RESP0), h),
            IssueStage::Done(v) => Run::Finished(v, h),
        }
    }

    fn new(cmd: u32, arg: u32) -> (m: Issue)
        ensures
            m.wf(),
            m.run(Seq::empty()) is Wants,
            forall|h: Seq<u32>| #[trigger] m.run(h) == issue_run(cmd, arg, h),
    {
        Issue {
            cmd,
            arg,
            stage: IssueStage::Idle(Poll::new(EMMC_STATUS, SR_INHIBIT, false, POLLS_10_MS)),
        }
    }

    fn next(&self) -> (r: Next<RegOp, u32>)
        requires
            self.wf(),
        ensures
            r == self.run(Seq::empty()).asks(),
            r matches Next::Done(v) ==> forall|h: Seq<u32>| #[trigger]
                self.run(h) == RegRun::Finished(v, h),
    {
        match &self.stage {
            IssueStage::Idle(p) => match p.next() {
                Next::Op(op) => Next::Op(op),
                Next::Done(_) => Next::Done(0),
            },
            IssueStage::Write(b) => match b.next() {
                Next::Op(op) => Next::Op(op),
                Next::Done(_) => Next::Done(0),
            },
            IssueStage::Wait(w) => match w.next() {
                Next::Op(op) => Next::Op(op),
                Next::Done(_) => Next::Done(0),
            },
            IssueStage::Response => Next::Op(RegOp::Read(EMMC_RESP0)),
            IssueStage::Done(v) => Next::Done(*v),
        }
    }

    fn answer(&mut self, r: u32)
        requires
            old(self).wf(),
            old(self).run(Seq::empty()) is Wants,
        ensures
            final(self).wf(),
            forall|h: Seq<u32>|
                #![trigger final(self).run(h)]
                #![trigger old(self).run(cons(r, h))]
                final(self).run(h) == old(self).run(cons(r, h)),
    {
        match &mut self.stage {
            IssueStage::Idle(p) => {
                p.answer(r);
                if let Next::Done(idle) = p.next() {
                    if idle {
                        let mut ops: Vec<RegOp> = Vec::new();
                        ops.push(RegOp::Write(EMMC_INTERRUPT, 0xFFFF_FFFF));
                        ops.push(RegOp::Write(EMMC_ARG1, self.arg));
                        ops.push(RegOp::Write(EMMC_CMDTM, self.cmd & 0x7FFF_FFFF));
                        assert(ops@ =~= issue_ops(self.cmd, self.arg));
                        self.stage = IssueStage::Write(Batch::new(ops));
                    } else {
                        self.stage = IssueStage::Done(CMD_FAILED);
                    }
                }
            },
            IssueStage::Write(b) => {
                b.answer(r);
                if let Next::Done(_) = b.next() {
                    self.stage = IssueStage::Wait(WaitInterrupt::new(INT_CMD_DONE));
                }
            },
            IssueStage::Wait(w) => {
                w.answer(r);
                if let Next::Done(done) = w.next() {
                    if done {
                        self.stage = IssueStage::Response;
                    } else {
                        self.stage = IssueStage::Done(CMD_FAILED);
                    }
                }
            },
            IssueStage::Response => {
                self.stage = IssueStage::Done(r);
            },
            IssueStage::Done(_) => {},
        }
    }
}

/// Sends `cmd` to the card. An application command is preceded by CMD55, and,
/// where the card has an address, is only sent if the controller then shows the
/// card expecting it. The value is the response, or [`CMD_FAILED`].
pub open spec fn send_cmd_run(rca: u32, cmd: u32, arg: u32, h: Seq<u32>) -> RegRun<u32> {
    if cmd & CMD_NEED_APP != 0 {
        issue_run(
            if rca != 0 {
                CMD55
            } else {
                CMD55_NO_RCA
            },
            rca << 16,
            h,
        ).and_then(
            |prefix: u32, h: Seq<u32>|
                if prefix == CMD_FAILED {
                    Run::Finished(CMD_FAILED, h)
                } else if rca != 0 {
                    app_cmd_run(cmd, arg, h)
                } else {
                    issue_run(cmd, arg, h)
                },
        )
    } else {
        issue_run(cmd, arg, h)
    }
}

/// The part of [`send_cmd_run`] after a prefix to a card with an address.
pub open spec fn app_cmd_run(cmd: u32, arg: u32, h: Seq<u32>) -> RegRun<u32> {
    op_run(RegOp::Read(EMMC_STATUS), h).and_then(
        |status: u32, h: Seq<u32>|
            if status & SR_APP_CMD == 0 {
                Run::Finished(CMD_FAILED, h)
            } else {
                issue_run(cmd, arg, h)
            },
    )
}

enum CmdStage {
    Prefix(Issue),
    AppStatus,
    Main(Issue),
    Failed,
}

/// A [`send_cmd_run`] under way.
struct SendCmd {
    rca: u32,
    cmd: u32,
    arg: u32,
    stage: CmdStage,
}

impl SendCmd {
    closed spec fn wf(self) -> bool {
        match self.stage {
            CmdStage::Prefix(i) => i.wf() && i.run(Seq::empty()) is Wants,
            CmdStage::Main(i) => i.wf(),
            _ => true,
        }
    }

    closed spec fn run(self, h: Seq<u32>) -> RegRun<u32> {
        let rca = self.rca;
        let cmd = self.cmd;
        let arg = self.arg;
        match self.stage {
            CmdStage::Prefix(i) => i.run(h).and_then(
                |prefix: u32, h: Seq<u32>|
                    if prefix == CMD_FAILED {
                        Run::Finished(CMD_FAILED, h)
                    } else if rca != 0 {
                        app_cmd_run(cmd, arg, h)
                    } else {
                        issue_run(cmd, arg, h)
                    },
            ),
            CmdStage::AppStatus => app_cmd_run(cmd, arg, h),
            CmdStage::Main(i) => i.run(h),
            CmdStage::Failed => Run::Finished(CMD_FAILED, h),
        }
    }

    fn new(rca: u32, cmd: u32, arg: u32) -> (m: SendCmd)
        ensures
            m.wf(),
            m.run(Seq::empty()) is Wants,
            forall|h: Seq<u32>| #[trigger] m.run(h) == send_cmd_run(rca, cmd, arg, h),
    {
        let stage = if cmd & CMD_NEED_APP != 0 {
            let prefix: u32 = if rca != 0 {
                CMD55
            } else {
                CMD55_NO_RCA
            };
            CmdStage::Prefix(Issue::new(prefix, rca << 16))
        } else {
            CmdStage::Main(Issue::new(cmd, arg))
        };
        SendCmd { rca, cmd, arg, stage }
    }

    fn next(&self) -> (r: Next<RegOp, u32>)
        requires
            self.wf(),
        ensures
            r == self.run(Seq::empty()).asks(),
            r matches Next::Done(v) ==> forall|h: Seq<u32>| #[trigger]
                self.run(h) == RegRun::Finished(v, h),
    {
        match &self.stage {
            CmdStage::Prefix(i) | CmdStage::Main(i) => i.next(),
            CmdStage::AppStatus => Next::Op(RegOp::Read(EMMC_STATUS)),
            CmdStage::Failed => Next::Done(CMD_FAILED),
        }
    }

    fn answer(&mut self, r: u32)
        requires
            old(self).wf(),
            old(self).run(Seq::empty()) is Wants,
        ensures
            final(self).wf(),
            forall|h: Seq<u32>|
                #![trigger final(self).run(h)]
                #![trigger old(self).run(cons(r, h))]
                final(self).run(h) == old(self).run(cons(r, h)),
    {
        match &mut self.stage {
            CmdStage::Prefix(i) => {
                i.answer(r);
                if let Next::Done(prefix) = i.next() {
                    if prefix == CMD_FAILED {
                        self.stage = CmdStage::Failed;
                    } else if self.rca != 0 {
                        self.stage = CmdStage::AppStatus;
                    } else {
                        self.stage = CmdStage::Main(Issue::new(self.cmd, self.arg));
                    }
                }
            },
            CmdStage::AppStatus => {
                if r & SR_APP_CMD == 0 {
                    self.stage = CmdStage::Failed;
                } else {
                    self.stage = CmdStage::Main(Issue::new(self.cmd, self.arg));
                }
            },
            CmdStage::Main(i) => {
                i.answer(r);
            },
            CmdStage::Failed => {},
        }
    }
}

// ── Bringing the card up ───────────────────────────────────────────────────

/// The identification clock and the data clock.
pub const IDENT_HZ: u32 = 400_000;
pub const DATA_HZ: u32 = 25_000_000;
/// The SEND_IF_COND argument, which a version 2 card echoes.
pub const IF_COND: u32 = 0x0000_01AA;
/// How often the card is asked whether it is ready.
pub const OP_COND_TRIES: u32 = 50;

/// Initialises the EMMC2 controller and the SD card. `supply` and `clock` are the
/// addresses of the two mailbox messages, `card` is what was known of the card.
/// The value says whether the card is ready to be read, and what is now known.
pub open spec fn sd_init_run(card: SdCard, supply: u64, clock: u64, h: Seq<u32>) -> RegRun<
    (bool, SdCard),
> {
    disable_18v_supply_run(supply, h).and_then(
        |_a: Option<u32>, h: Seq<u32>|
            op_run(sleep_op(5), h).and_then(
                |_v: u32, h: Seq<u32>| init_clock_run(card, clock, h),
            ),
    )
}

pub open spec fn init_clock_run(card: SdCard, clock: u64, h: Seq<u32>) -> RegRun<(bool, SdCard)> {
    get_emmc_clock_hz_run(clock, h).and_then(
        |base_hz: u32, h: Seq<u32>| init_reset_run(card, base_hz, h),
    )
}

pub open spec fn reset_ops() -> Seq<RegOp> {
    seq![
        RegOp::Write(EMMC_CONTROL2, 0),
        RegOp::Write(EMMC_CONTROL0, 0),
        RegOp::Write(EMMC_CONTROL1, C1_SRST_HC),
        sleep_op(10),
    ]
}

/// Resets the host controller.
pub open spec fn init_reset_run(card: SdCard, base_hz: u32, h: Seq<u32>) -> RegRun<
    (bool, SdCard),
> {
    batch_run(reset_ops(), h).and_then(
        |_v: (), h: Seq<u32>|
            poll_run(EMMC_CONTROL1, C1_SRST_HC, false, POLLS_100_MS as nat, h).and_then(
                |ok: bool, h: Seq<u32>|
                    if ok {
                        init_power_run(card, base_hz, h)
                    } else {
                        Run::Finished((false, card), h)
                    },
            ),
    )
}

/// Powers the bus at 3.3 V, sets the data timeout and the identification clock.
pub open spec fn init_power_run(card: SdCard, base_hz: u32, h: Seq<u32>) -> RegRun<
    (bool, SdCard),
> {
    update_run(EMMC_CONTROL0, ALL_BITS, C0_VDD1_3V3, 2, h).and_then(
        |_v: (), h: Seq<u32>|
            update_run(EMMC_CONTROL1, ALL_BITS, C1_TOUNIT_MAX, 0, h).and_then(
                |_v: (), h: Seq<u32>|
                    set_clock_run(base_hz, IDENT_HZ, h).and_then(
                        |_v: (), h: Seq<u32>| init_idle_run(card, base_hz, h),
                    ),
            ),
    )
}

pub open spec fn enable_interrupts_ops() -> Seq<RegOp> {
    seq![
        RegOp::Write(EMMC_IRPT_EN, 0xFFFF_FFFF),
        RegOp::Write(EMMC_IRPT_MASK, 0xFFFF_FFFF),
    ]
}

/// Enables the interrupts, sends the card to its idle state and asks for its
/// interface condition.
pub open spec fn init_idle_run(card: SdCard, base_hz: u32, h: Seq<u32>) -> RegRun<(bool, SdCard)> {
    batch_run(enable_interrupts_ops(), h).and_then(
        |_v: (), h: Seq<u32>|
            send_cmd_run(card.rca, CMD0, 0, h).and_then(
                |_r: u32, h: Seq<u32>|
                    op_run(sleep_op(2), h).and_then(
                        |_v: u32, h: Seq<u32>| init_if_cond_run(card, base_hz, h),
                    ),
            ),
    )
}

pub open spec fn init_if_cond_run(card: SdCard, base_hz: u32, h: Seq<u32>) -> RegRun<
    (bool, SdCard),
> {
    send_cmd_run(card.rca, CMD8, IF_COND, h).and_then(
        |r8: u32, h: Seq<u32>|
            init_op_cond_run(card, base_hz, op_cond_arg(r8), OP_COND_TRIES as nat, h),
    )
}

/// The ACMD41 argument for what CMD8 answered.
pub open spec fn op_cond_arg(r8: u32) -> u32 {
    if r8 == IF_COND {
        0x51FF_8000
    } else {
        0x00FF_8000
    }
}

/// Asks the card, up to `tries` times, whether it is ready, and learns whether it
/// uses block addresses.
pub open spec fn init_op_cond_run(
    card: SdCard,
    base_hz: u32,
    arg: u32,
    tries: nat,
    h: Seq<u32>,
) -> RegRun<(bool, SdCard)>
    decreases tries,
{
    if tries == 0 {
        Run::Finished((false, card), h)
    } else {
        send_cmd_run(card.rca, ACMD41, arg, h).and_then(
            |resp: u32, h: Seq<u32>|
                if resp == CMD_FAILED {
                    Run::Finished((false, card), h)
                } else if resp & 0x8000_0000 != 0 {
                    init_cid_run(SdCard { rca: card.rca, hccs: resp & 0x4000_0000 != 0 }, base_hz, h)
                } else {
                    op_run(sleep_op(5), h).and_then(
                        |_v: u32, h: Seq<u32>|
                            init_op_cond_run(card, base_hz, arg, (tries - 1) as nat, h),
                    )
                },
        )
    }
}

/// Lets the card identify itself.
pub open spec fn init_cid_run(card: SdCard, base_hz: u32, h: Seq<u32>) -> RegRun<(bool, SdCard)> {
    send_cmd_run(card.rca, CMD2, 0, h).and_then(
        |r2: u32, h: Seq<u32>|
            if r2 == CMD_FAILED {
                Run::Finished((false, card), h)
            } else {
                init_address_run(card, base_hz, h)
            },
    )
}

/// Gets the card's address and raises the clock.
pub open spec fn init_address_run(card: SdCard, base_hz: u32, h: Seq<u32>) -> RegRun<
    (bool, SdCard),
> {
    send_cmd_run(card.rca, CMD3, 0, h).and_then(
        |r3: u32, h: Seq<u32>|
            if r3 == CMD_FAILED {
                Run::Finished((false, card), h)
            } else {
                init_transfer_run(SdCard { rca: r3 >> 16, hccs: card.hccs }, base_hz, h)
            },
    )
}

pub open spec fn init_transfer_run(card: SdCard, base_hz: u32, h: Seq<u32>) -> RegRun<
    (bool, SdCard),
> {
    set_clock_run(base_hz, DATA_HZ, h).and_then(|_v: (), h: Seq<u32>| init_select_run(card, h))
}

/// Selects the card and, on a byte-addressed card, sets the block length.
pub open spec fn init_select_run(card: SdCard, h: Seq<u32>) -> RegRun<(bool, SdCard)> {
    send_cmd_run(card.rca, CMD7, card.rca << 16, h).and_then(
        |r7: u32, h: Seq<u32>|
            if r7 == CMD_FAILED {
                Run::Finished((false, card), h)
            } else if card.hccs {
                Run::Finished((true, card), h)
            } else {
                init_block_len_run(card, h)
            },
    )
}

pub open spec fn init_block_len_run(card: SdCard, h: Seq<u32>) -> RegRun<(bool, SdCard)> {
    send_cmd_run(card.rca, CMD16, 512, h).and_then(
        |r16: u32, h: Seq<u32>| Run::Finished((r16 & 0xFFFF_0000 == 0, card), h),
    )
}

enum InitStage {
    Supply(PropertyRead),
    Settle,
    Clock(PropertyRead),
    Reset(Batch),
    ResetPoll(Poll),
    Power(Update),
    Timeout(Update),
    IdentClock(SetClock),
    Interrupts(Batch),
    GoIdle(SendCmd),
    IdlePause,
    IfCond(SendCmd),
    OpCond(SendCmd, u32, u32),
    OpCondPause(u32, u32),
    Cid(SendCmd),
    Address(SendCmd),
    DataClock(SetClock),
    Select(SendCmd),
    BlockLen(SendCmd),
    Done(bool),
}

/// The initialisation of controller and card under way.
pub struct SdInit {
    card: SdCard,
    clock: u64,
    base_hz: u32,
    stage: InitStage,
}

impl SdInit {
    pub closed spec fn wf(self) -> bool {
        &&& self.clock + 24 <= u64::MAX
        &&& 0 < self.base_hz <= 400_000_000
        &&& match self.stage {
            InitStage::Supply(p) => p.wf() && p.run(Seq::empty()) is Wants,
            InitStage::Clock(p) => p.wf() && p.run(Seq::empty()) is Wants,
            InitStage::Reset(b) => b.wf() && b.run(Seq::empty()) is Wants,
            InitStage::ResetPoll(p) => p.run(Seq::empty()) is Wants,
            InitStage::Power(u) => u.wf() && u.run(Seq::empty()) is Wants,
            InitStage::Timeout(u) => u.wf() && u.run(Seq::empty()) is Wants,
            InitStage::IdentClock(c) => c.wf() && c.run(Seq::empty()) is Wants,
            InitStage::Interrupts(b) => b.wf() && b.run(Seq::empty()) is Wants,
            InitStage::GoIdle(c) => c.wf() && c.run(Seq::empty()) is Wants,
            InitStage::IfCond(c) => c.wf() && c.run(Seq::empty()) is Wants,
            InitStage::OpCond(c, _, tries) => c.wf() && c.run(Seq::empty()) is Wants && tries > 0,
            InitStage::OpCondPause(_, tries) => tries > 0,
            InitStage::Cid(c) => c.wf() && c.run(Seq::empty()) is Wants,
            InitStage::Address(c) => c.wf() && c.run(Seq::empty()) is Wants,
            InitStage::DataClock(c) => c.wf() && c.run(Seq::empty()) is Wants,
            InitStage::Select(c) => c.wf() && c.run(Seq::empty()) is Wants,
            InitStage::BlockLen(c) => c.wf() && c.run(Seq::empty()) is Wants,
            _ => true,
        }
    }

    /// What happens from here on.
    pub closed spec fn run(self, h: Seq<u32>) -> RegRun<(bool, SdCard)> {
        let card = self.card;
        let clock = self.clock;
        let base_hz = self.base_hz;
        match self.stage {
            InitStage::Supply(p) => p.run(h).and_then(
                |_a: Option<u32>, h: Seq<u32>|
                    op_run(sleep_op(5), h).and_then(
                        |_v: u32, h: Seq<u32>| init_clock_run(card, clock, h),
                    ),
            ),
            InitStage::Settle => op_run(sleep_op(5), h).and_then(
                |_v: u32, h: Seq<u32>| init_clock_run(card, clock, h),
            ),
            InitStage::Clock(p) => p.run(h).and_then(
                |a: Option<u32>, h: Seq<u32>| init_reset_run(card, usable_clock(a), h),
            ),
            InitStage::Reset(b) => b.run(h).and_then(
                |_v: (), h: Seq<u32>|
                    poll_run(EMMC_CONTROL1, C1_SRST_HC, false, POLLS_100_MS as nat, h).and_then(
                        |ok: bool, h: Seq<u32>|
                            if ok {
                                init_power_run(card, base_hz, h)
                            } else {
                                Run::Finished((false, card), h)
                            },
                    ),
            ),
            InitStage::ResetPoll(p) => p.run(h).and_then(
                |ok: bool, h: Seq<u32>|
                    if ok {
                        init_power_run(card, base_hz, h)
                    } else {
                        Run::Finished((false, card), h)
                    },
            ),
            InitStage::Power(u) => u.run(h).and_then(
                |_v: (), h: Seq<u32>|
                    update_run(EMMC_CONTROL1, ALL_BITS, C1_TOUNIT_MAX, 0, h).and_then(
                        |_v: (), h: Seq<u32>|
                            set_clock_run(base_hz, IDENT_HZ, h).and_then(
                                |_v: (), h: Seq<u32>| init_idle_run(card, base_hz, h),
                            ),
                    ),
            ),
            InitStage::Timeout(u) => u.run(h).and_then(
                |_v: (), h: Seq<u32>|
                    set_clock_run(base_hz, IDENT_HZ, h).and_then(
                        |_v: (), h: Seq<u32>| init_idle_run(card, base_hz, h),
                    ),
            ),
            InitStage::IdentClock(c) => c.run(h).and_then(
                |_v: (), h: Seq<u32>| init_idle_run(card, base_hz, h),
            ),
            InitStage::Interrupts(b) => b.run(h).and_then(
                |_v: (), h: Seq<u32>|
                    send_cmd_run(card.rca, CMD0, 0, h).and_then(
                        |_r: u32, h: Seq<u32>|
                            op_run(sleep_op(2), h).and_then(
                                |_v: u32, h: Seq<u32>| init_if_cond_run(card, base_hz, h),
                            ),
                    ),
            ),
            InitStage::GoIdle(c) => c.run(h).and_then(
                |_r: u32, h: Seq<u32>|
                    op_run(sleep_op(2), h).and_then(
                        |_v: u32, h: Seq<u32>| init_if_cond_run(card, base_hz, h),
                    ),
            ),
            InitStage::IdlePause => op_run(sleep_op(2), h).and_then(
                |_v: u32, h: Seq<u32>| init_if_cond_run(card, base_hz, h),
            ),
            InitStage::IfCond(c) => c.run(h).and_then(
                |r8: u32, h: Seq<u32>|
                    init_op_cond_run(card, base_hz, op_cond_arg(r8), OP_COND_TRIES as nat, h),
            ),
            InitStage::OpCond(c, arg, tries) => c.run(h).and_then(
                |resp: u32, h: Seq<u32>|
                    if resp == CMD_FAILED {
                        Run::Finished((false, card), h)
                    } else if resp & 0x8000_0000 != 0 {
                        init_cid_run(
                            SdCard { rca: card.rca, hccs: resp & 0x4000_0000 != 0 },
                            base_hz,
                            h,
                        )
                    } else {
                        op_run(sleep_op(5), h).and_then(
                            |_v: u32, h: Seq<u32>|
                                init_op_cond_run(card, base_hz, arg, (tries - 1) as nat, h),
                        )
                    },
            ),
            InitStage::OpCondPause(arg, tries) => op_run(sleep_op(5), h).and_then(
                |_v: u32, h: Seq<u32>|
                    init_op_cond_run(card, base_hz, arg, (tries - 1) as nat, h),
            ),
            InitStage::Cid(c) => c.run(h).and_then(
                |r2: u32, h: Seq<u32>|
                    if r2 == CMD_FAILED {
                        Run::Finished((false, card), h)
                    } else {
                        init_address_run(card, base_hz, h)
                    },
            ),
            InitStage::Address(c) => c.run(h).and_then(
                |r3: u32, h: Seq<u32>|
                    if r3 == CMD_FAILED {
                        Run::Finished((false, card), h)
                    } else {
                        init_transfer_run(SdCard { rca: r3 >> 16, hccs: card.hccs }, base_hz, h)
                    },
            ),
            InitStage::DataClock(c) => c.run(h).and_then(
                |_v: (), h: Seq<u32>| init_select_run(card, h),
            ),
            InitStage::Select(c) => c.run(h).and_then(
                |r7: u32, h: Seq<u32>|
                    if r7 == CMD_FAILED {
                        Run::Finished((false, card), h)
                    } else if card.hccs {
                        Run::Finished((true, card), h)
                    } else {
                        init_block_len_run(card, h)
                    },
            ),
            InitStage::BlockLen(c) => c.run(h).and_then(
                |r16: u32, h: Seq<u32>| Run::Finished((r16 & 0xFFFF_0000 == 0, card), h),
            ),
            InitStage::Done(ok) => Run::Finished((ok, card), h),
        }
    }

    /// The next register access, or whether the card is ready and what is known
    /// of it.
    pub fn next(&self) -> (r: Next<RegOp, (bool, SdCard)>)
        requires
            self.wf(),
        ensures
            r == self.run(Seq::empty()).asks(),
            r matches Next::Done(v) ==> forall|h: Seq<u32>| #[trigger]
                self.run(h) == RegRun::Finished(v, h),
    {
        match &self.stage {
            InitStage::Supply(p) | InitStage::Clock(p) => match p.next() {
                Next::Op(op) => Next::Op(op),
                Next::Done(_) => Next::Done((false, self.card)),
            },
            InitStage::Settle => Next::Op(sleep_ms(5)),
            InitStage::Reset(b) | InitStage::Interrupts(b) => match b.next() {
                Next::Op(op) => Next::Op(op),
                Next::Done(_) => Next::Done((false, self.card)),
            },
            InitStage::ResetPoll(p) => match p.next() {
                Next::Op(op) => Next::Op(op),
                Next::Done(_) => Next::Done((false, self.card)),
            },
            InitStage::Power(u) | InitStage::Timeout(u) => match u.next() {
                Next::Op(op) => Next::Op(op),
                Next::Done(_) => Next::Done((false, self.card)),
            },
            InitStage::IdentClock(c) | InitStage::DataClock(c) => match c.next() {
                Next::Op(op) => Next::Op(op),
                Next::Done(_) => Next::Done((false, self.card)),
            },
            InitStage::IdlePause => Next::Op(sleep_ms(2)),
            InitStage::OpCondPause(_, _) => Next::Op(sleep_ms(5)),
            InitStage::GoIdle(c)
            | InitStage::IfCond(c)
            | InitStage::OpCond(c, _, _)
            | InitStage::Cid(c)
            | InitStage::Address(c)
            | InitStage::Select(c)
            | InitStage::BlockLen(c) => match c.next() {
                Next::Op(op) => Next::Op(op),
                Next::Done(_) => Next::Done((false, self.card)),
            },
            InitStage::Done(ok) => Next::Done((*ok, self.card)),
        }
    }

    /// Goes on with the reply to the access that was asked for.
    pub fn answer(&mut self, r: u32)
        requires
            old(self).wf(),
            old(self).run(Seq::empty()) is Wants,
        ensures
            final(self).wf(),
            forall|h: Seq<u32>|
                #![trigger final(self).run(h)]
                #![trigger old(self).run(cons(r, h))]
                final(self).run(h) == old(self).run(cons(r, h)),
    {
        let base_hz: u32 = self.base_hz;
        let rca: u32 = self.card.rca;
        match &mut self.stage {
            InitStage::Supply(p) => {
                p.answer(r);
                if let Next::Done(_) = p.next() {
                    self.stage = InitStage::Settle;
                }
            },
            InitStage::Settle => {
                self.stage = InitStage::Clock(PropertyRead::new(self.clock, 24));
            },
            InitStage::Clock(p) => {
                p.answer(r);
                if let Next::Done(a) = p.next() {
                    self.base_hz = get_usable_clock(a);
                    let mut ops: Vec<RegOp> = Vec::new();
                    ops.push(RegOp::Write(EMMC_CONTROL2, 0));
                    ops.push(RegOp::Write(EMMC_CONTROL0, 0));
                    ops.push(RegOp::Write(EMMC_CONTROL1, C1_SRST_HC));
                    ops.push(sleep_ms(10));
                    assert(ops@ =~= reset_ops());
                    self.stage = InitStage::Reset(Batch::new(ops));
                }
            },
            InitStage::Reset(b) => {
                b.answer(r);
                if let Next::Done(_) = b.next() {
                    self.stage = InitStage::ResetPoll(
                        Poll::new(EMMC_CONTROL1, C1_SRST_HC, false, POLLS_100_MS),
                    );
                }
            },
            InitStage::ResetPoll(p) => {
                p.answer(r);
                if let Next::Done(ok) = p.next() {
                    if ok {
                        self.stage = InitStage::Power(
                            Update::new(EMMC_CONTROL0, ALL_BITS, C0_VDD1_3V3, 2),
                        );
                    } else {
                        self.stage = InitStage::Done(false);
                    }
                }
            },
            InitStage::Power(u) => {
                u.answer(r);
                if let Next::Done(_) = u.next() {
                    self.stage = InitStage::Timeout(
                        Update::new(EMMC_CONTROL1, ALL_BITS, C1_TOUNIT_MAX, 0),
                    );
                }
            },
            InitStage::Timeout(u) => {
                u.answer(r);
                if let Next::Done(_) = u.next() {
                    self.stage = InitStage::IdentClock(SetClock::new(base_hz, IDENT_HZ));
                }
            },
            InitStage::IdentClock(c) => {
                c.answer(r);
                if let Next::Done(_) = c.next() {
                    let mut ops: Vec<RegOp> = Vec::new();
                    ops.push(RegOp::Write(EMMC_IRPT_EN, 0xFFFF_FFFF));
                    ops.push(RegOp::Write(EMMC_IRPT_MASK, 0xFFFF_FFFF));
                    assert(ops@ =~= enable_interrupts_ops());
                    self.stage = InitStage::Interrupts(Batch::new(ops));
                }
            },
            InitStage::Interrupts(b) => {
                b.answer(r);
                if let Next::Done(_) = b.next() {
                    self.stage = InitStage::GoIdle(SendCmd::new(rca, CMD0, 0));
                }
            },
            InitStage::GoIdle(c) => {
                c.answer(r);
                if let Next::Done(_) = c.next() {
                    self.stage = InitStage::IdlePause;
                }
            },
            InitStage::IdlePause => {
                self.stage = InitStage::IfCond(SendCmd::new(rca, CMD8, IF_COND));
            },
            InitStage::IfCond(c) => {
                c.answer(r);
                if let Next::Done(r8) = c.next() {
                    let arg: u32 = if r8 == IF_COND {
                        0x51FF_8000
                    } else {
                        0x00FF_8000
                    };
                    self.stage = InitStage::OpCond(
                        SendCmd::new(rca, ACMD41, arg),
                        arg,
                        OP_COND_TRIES,
                    );
                }
            },
            InitStage::OpCond(c, arg, tries) => {
                c.answer(r);
                let arg: u32 = *arg;
                let tries: u32 = *tries;
                if let Next::Done(resp) = c.next() {
                    if resp == CMD_FAILED {
                        self.stage = InitStage::Done(false);
                    } else if resp & 0x8000_0000 != 0 {
                        self.card = SdCard { rca, hccs: resp & 0x4000_0000 != 0 };
                        self.stage = InitStage::Cid(SendCmd::new(rca, CMD2, 0));
                    } else {
                        self.stage = InitStage::OpCondPause(arg, tries);
                    }
                }
            },
            InitStage::OpCondPause(arg, tries) => {
                let arg: u32 = *arg;
                let tries: u32 = *tries;
                if tries == 1 {
                    self.stage = InitStage::Done(false);
                } else {
                    self.stage = InitStage::OpCond(SendCmd::new(rca, ACMD41, arg), arg, tries - 1);
                }
            },
            InitStage::Cid(c) => {
                c.answer(r);
                if let Next::Done(r2) = c.next() {
                    if r2 == CMD_FAILED {
                        self.stage = InitStage::Done(false);
                    } else {
                        self.stage = InitStage::Address(SendCmd::new(rca, CMD3, 0));
                    }
                }
            },
            InitStage::Address(c) => {
                c.answer(r);
                if let Next::Done(r3) = c.next() {
                    if r3 == CMD_FAILED {
                        self.stage = InitStage::Done(false);
                    } else {
                        self.card = SdCard { rca: r3 >> 16, hccs: self.card.hccs };
                        self.stage = InitStage::DataClock(SetClock::new(base_hz, DATA_HZ));
                    }
                }
            },
            InitStage::DataClock(c) => {
                c.answer(r);
                if let Next::Done(_) = c.next() {
                    self.stage = InitStage::Select(SendCmd::new(rca, CMD7, rca << 16));
                }
            },
            InitStage::Select(c) => {
                c.answer(r);
                if let Next::Done(r7) = c.next() {
                    if r7 == CMD_FAILED {
                        self.stage = InitStage::Done(false);
                    } else if self.card.hccs {
                        self.stage = InitStage::Done(true);
                    } else {
                        self.stage = InitStage::BlockLen(SendCmd::new(rca, CMD16, 512));
                    }
                }
            },
            InitStage::BlockLen(c) => {
                c.answer(r);
                if let Next::Done(r16) = c.next() {
                    self.stage = InitStage::Done(r16 & 0xFFFF_0000 == 0);
                }
            },
            InitStage::Done(_) => {},
        }
    }
}

/// Initialises the EMMC2 controller and the SD card. `supply` and `clock` are the
/// addresses of [`supply_message`] and [`clock_message`].
pub fn sd_init(card: SdCard, supply: u64, clock: u64) -> (m: SdInit)
    requires
        supply + 24 <= u64::MAX,
        clock + 24 <= u64::MAX,
    ensures
        m.wf(),
        forall|h: Seq<u32>| #[trigger] m.run(h) == sd_init_run(card, supply, clock, h),
{
    SdInit {
        card,
        clock,
        base_hz: DEFAULT_CLOCK_HZ,
        stage: InitStage::Supply(PropertyRead::new(supply, 4)),
    }
}

// ── Reading blocks ─────────────────────────────────────────────────────────

/// The CMD17 argument for block `lba`: the block number, or, on a byte-addressed
/// card, its byte offset (modulo 2^32).
pub open spec fn block_address(card: SdCard, lba: u32) -> u32 {
    if card.hccs {
        lba
    } else {
        ((lba * 512) % 0x1_0000_0000) as u32
    }
}

/// The four bytes of a data word, lowest first.
pub open spec fn word_bytes(w: u32) -> Seq<u8> {
    seq![
        (w & 0xFF) as u8,
        ((w >> 8) & 0xFF) as u8,
        ((w >> 16) & 0xFF) as u8,
        ((w >> 24) & 0xFF) as u8,
    ]
}

/// Reads the 512-byte block `lba`. The value is its contents, or `None` where the
/// card refused or did not deliver.
pub open spec fn sd_read_block_run(card: SdCard, lba: u32, h: Seq<u32>) -> RegRun<
    Option<Seq<u8>>,
> {
    op_run(RegOp::Write(EMMC_BLKSIZECNT, 0x0001_0200), h).and_then(
        |_v: u32, h: Seq<u32>|
            send_cmd_run(card.rca, CMD17, block_address(card, lba), h).and_then(
                |resp: u32, h: Seq<u32>|
                    if resp & 0xFFFF_0000 != 0 {
                        Run::Finished(None, h)
                    } else {
                        block_ready_run(h)
                    },
            ),
    )
}

/// The part of [`sd_read_block_run`] after the card accepted the command.
pub open spec fn block_ready_run(h: Seq<u32>) -> RegRun<Option<Seq<u8>>> {
    interrupt_run(INT_READ_RDY, POLLS_200_MS as nat, h).and_then(
        |ready: bool, h: Seq<u32>|
            if ready {
                block_words_run(128, Seq::empty(), h)
            } else {
                Run::Finished(None, h)
            },
    )
}

/// Takes `n` more words, after the bytes `got`, out of the data register.
pub open spec fn block_words_run(n: nat, got: Seq<u8>, h: Seq<u32>) -> RegRun<Option<Seq<u8>>>
    decreases n,
{
    if n == 0 {
        interrupt_run(INT_DATA_DONE, POLLS_200_MS as nat, h).and_then(
            |_done: bool, h: Seq<u32>| Run::Finished(Some(got), h),
        )
    } else {
        op_run(RegOp::Read(EMMC_DATA), h).and_then(
            |w: u32, h: Seq<u32>| block_words_run((n - 1) as nat, got + word_bytes(w), h),
        )
    }
}

/// Puts the bytes of `w` at `pos` of the block.
fn store_word(buf: &mut [u8; 512], pos: usize, w: u32)
    requires
        pos + 4 <= 512,
    ensures
        final(buf)@.take(pos + 4) == old(buf)@.take(pos as int) + word_bytes(w),
{
    buf[pos] = (w & 0xFF) as u8;
    buf[pos + 1] = ((w >> 8) & 0xFF) as u8;
    buf[pos + 2] = ((w >> 16) & 0xFF) as u8;
    buf[pos + 3] = ((w >> 24) & 0xFF) as u8;
    assert(buf@.take(pos + 4) =~= old(buf)@.take(pos as int) + word_bytes(w));
}

enum WordsStage {
    Read,
    Complete(WaitInterrupt),
    Done,
}

/// A [`block_words_run`] under way.
struct BlockWords {
    buf: [u8; 512],
    pos: usize,
    stage: WordsStage,
}

impl BlockWords {
    closed spec fn wf(self) -> bool {
        match self.stage {
            WordsStage::Read => self.pos < 512 && self.pos % 4 == 0,
            WordsStage::Complete(w) => w.run(Seq::empty()) is Wants,
            WordsStage::Done => true,
        }
    }

    closed spec fn run(self, h: Seq<u32>) -> RegRun<Option<Seq<u8>>> {
        match self.stage {
            WordsStage::Read => block_words_run(
                ((512 - self.pos) / 4) as nat,
                self.buf@.take(self.pos as int),
                h,
            ),
            WordsStage::Complete(w) => w.run(h).and_then(
                |_done: bool, h: Seq<u32>| Run::Finished(Some(self.buf@), h),
            ),
            WordsStage::Done => Run::Finished(Some(self.buf@), h),
        }
    }

    fn new() -> (m: BlockWords)
        ensures
            m.wf(),
            m.run(Seq::empty()) is Wants,
            forall|h: Seq<u32>| #[trigger] m.run(h) == block_words_run(128, Seq::empty(), h),
    {
        let m = BlockWords { buf: [0;512], pos: 0, stage: WordsStage::Read };
        assert(m.buf@.take(0) =~= Seq::empty());
        m
    }

    fn next(&self) -> (r: Next<RegOp, Option<[u8; 512]>>)
        requires
            self.wf(),
        ensures
            block_view(r) == self.run(Seq::empty()).asks(),
            block_view(r) matches Next::Done(v) ==> forall|h: Seq<u32>| #[trigger]
                self.run(h) == RegRun::Finished(v, h),
    {
        match &self.stage {
            WordsStage::Read => Next::Op(RegOp::Read(EMMC_DATA)),
            WordsStage::Complete(w) => match w.next() {
                Next::Op(op) => Next::Op(op),
                Next::Done(_) => Next::Done(None),
            },
            WordsStage::Done => Next::Done(Some(self.buf)),
        }
    }

    fn answer(&mut self, r: u32)
        requires
            old(self).wf(),
            old(self).run(Seq::empty()) is Wants,
        ensures
            final(self).wf(),
            forall|h: Seq<u32>|
                #![trigger final(self).run(h)]
                #![trigger old(self).run(cons(r, h))]
                final(self).run(h) == old(self).run(cons(r, h)),
    {
        match &mut self.stage {
            WordsStage::Read => {
                store_word(&mut self.buf, self.pos, r);
                self.pos = self.pos + 4;
                if self.pos == 512 {
                    assert(self.buf@.take(512) =~= self.buf@);
                    self.stage = WordsStage::Complete(WaitInterrupt::new(INT_DATA_DONE));
                }
            },
            WordsStage::Complete(w) => {
                w.answer(r);
                if let Next::Done(_) = w.next() {
                    self.stage = WordsStage::Done;
                }
            },
            WordsStage::Done => {},
        }
    }
}

enum BlockStage {
    Size,
    Command(SendCmd),
    Ready(WaitInterrupt),
    Data(BlockWords),
    Failed,
}

/// The reading of a block under way.
pub struct SdReadBlock {
    card: SdCard,
    lba: u32,
    stage: BlockStage,
}

/// A reply of [`SdReadBlock::next`] with the block taken by its view.
pub open spec fn block_view(r: Next<RegOp, Option<[u8; 512]>>) -> Next<RegOp, Option<Seq<u8>>> {
    match r {
        Next::Op(op) => Next::Op(op),
        Next::Done(None) => Next::Done(None),
        Next::Done(Some(block)) => Next::Done(Some(block@)),
    }
}

impl SdReadBlock {
    pub closed spec fn wf(self) -> bool {
        match self.stage {
            BlockStage::Size => true,
            BlockStage::Command(c) => c.wf() && c.run(Seq::empty()) is Wants,
            BlockStage::Ready(w) => w.run(Seq::empty()) is Wants,
            BlockStage::Data(d) => d.wf(),
            BlockStage::Failed => true,
        }
    }

    /// What happens from here on.
    pub closed spec fn run(self, h: Seq<u32>) -> RegRun<Option<Seq<u8>>> {
        let card = self.card;
        match self.stage {
            BlockStage::Size => sd_read_block_run(card, self.lba, h),
            BlockStage::Command(c) => c.run(h).and_then(
                |resp: u32, h: Seq<u32>|
                    if resp & 0xFFFF_0000 != 0 {
                        Run::Finished(None, h)
                    } else {
                        block_ready_run(h)
                    },
            ),
            BlockStage::Ready(w) => w.run(h).and_then(
                |ready: bool, h: Seq<u32>|
                    if ready {
                        block_words_run(128, Seq::empty(), h)
                    } else {
                        Run::Finished(None, h)
                    },
            ),
            BlockStage::Data(d) => d.run(h),
            BlockStage::Failed => Run::Finished(None, h),
        }
    }

    /// The next register access, or the block.
    pub fn next(&self) -> (r: Next<RegOp, Option<[u8; 512]>>)
        requires
            self.wf(),
        ensures
            block_view(r) == self.run(Seq::empty()).asks(),
            block_view(r) matches Next::Done(v) ==> forall|h: Seq<u32>| #[trigger]
                self.run(h) == RegRun::Finished(v, h),
    {
        match &self.stage {
            BlockStage::Size => Next::Op(RegOp::Write(EMMC_BLKSIZECNT, 0x0001_0200)),
            BlockStage::Command(c) => match c.next() {
                Next::Op(op) => Next::Op(op),
                Next::Done(_) => Next::Done(None),
            },
            BlockStage::Ready(w) => match w.next() {
                Next::Op(op) => Next::Op(op),
                Next::Done(_) => Next::Done(None),
            },
            BlockStage::Data(d) => d.next(),
            BlockStage::Failed => Next::Done(None),
        }
    }

    /// Goes on with the reply to the access that was asked for.
    pub fn answer(&mut self, r: u32)
        requires
            old(self).wf(),
            old(self).run(Seq::empty()) is Wants,
        ensures
            final(self).wf(),
            forall|h: Seq<u32>|
                #![trigger final(self).run(h)]
                #![trigger old(self).run(cons(r, h))]
                final(self).run(h) == old(self).run(cons(r, h)),
    {
        match &mut self.stage {
            BlockStage::Size => {
                let arg: u32 = if self.card.hccs {
                    self.lba
                } else {
                    self.lba.wrapping_mul(512)
                };
                assert(arg == block_address(self.card, self.lba));
                self.stage = BlockStage::Command(SendCmd::new(self.card.rca, CMD17, arg));
            },
            BlockStage::Command(c) => {
                c.answer(r);
                if let Next::Done(resp) = c.next() {
                    if resp & 0xFFFF_0000 != 0 {
                        self.stage = BlockStage::Failed;
                    } else {
                        self.stage = BlockStage::Ready(WaitInterrupt::new(INT_READ_RDY));
                    }
                }
            },
            BlockStage::Ready(w) => {
                w.answer(r);
                if let Next::Done(ready) = w.next() {
                    if ready {
                        self.stage = BlockStage::Data(BlockWords::new());
                    } else {
                        self.stage = BlockStage::Failed;
                    }
                }
            },
            BlockStage::Data(d) => {
                d.answer(r);
            },
            BlockStage::Failed => {},
        }
    }
}

/// Reads the 512-byte block `lba`.
pub fn sd_read_block(card: SdCard, lba: u32) -> (m: SdReadBlock)
    ensures
        m.wf(),
        forall|h: Seq<u32>| #[trigger] m.run(h) == sd_read_block_run(card, lba, h),
{
    SdReadBlock { card, lba, stage: BlockStage::Size }
}

// ── What always holds ──────────────────────────────────────────────────────

/// The flag that marks an application command does not reach the controller.
pub proof fn lemma_app_flag_stays_here(cmd: u32, arg: u32)
    ensures
        issue_ops(cmd, arg)[2] == RegOp::Write(EMMC_CMDTM, cmd & 0x7FFF_FFFF),
        (cmd & 0x7FFF_FFFF) & CMD_NEED_APP == 0,
{
    assert((cmd & 0x7FFF_FFFF) & CMD_NEED_APP == 0) by (bit_vector);
}

/// The bytes of a data word make up the word, lowest first.
pub proof fn lemma_word_bytes(w: u32)
    ensures
        word_bytes(w).len() == 4,
        word_bytes(w)[0] + 0x100 * word_bytes(w)[1] + 0x1_0000 * word_bytes(w)[2] + 0x100_0000
            * word_bytes(w)[3] == w,
{
    assert(((w & 0xFF) as u8) + 0x100 * (((w >> 8) & 0xFF) as u8) + 0x1_0000 * (((w >> 16)
        & 0xFF) as u8) + 0x100_0000 * (((w >> 24) & 0xFF) as u8) == w) by (bit_vector);
}

proof fn lemma_words_make_a_block(n: nat, got: Seq<u8>, h: Seq<u32>)
    ensures
        block_words_run(n, got, h) matches Run::Finished(r, _) ==> (r matches Some(block)
            && block.len() == got.len() + 4 * n),
    decreases n,
{
    if n > 0 && h.len() > 0 {
        lemma_words_make_a_block((n - 1) as nat, got + word_bytes(h[0]), h.drop_first());
    }
}

/// A block that was read has 512 bytes.
pub proof fn lemma_block_is_whole(card: SdCard, lba: u32, h: Seq<u32>)
    ensures
        sd_read_block_run(card, lba, h) matches Run::Finished(Some(block), _) ==> block.len()
            == 512,
{
    if let Run::Finished(_, h1) = op_run(RegOp::Write(EMMC_BLKSIZECNT, 0x0001_0200), h) {
        if let Run::Finished(_, h2) = send_cmd_run(card.rca, CMD17, block_address(card, lba), h1) {
            if let Run::Finished(_, h3) = interrupt_run(INT_READ_RDY, POLLS_200_MS as nat, h2) {
                lemma_words_make_a_block(128, Seq::empty(), h3);
            }
        }
    }
}

proof fn lemma_poll_ends(addr: u64, mask: u32, set: bool, n: nat)
    ensures
        ends_within(|h: Seq<u32>| poll_run(addr, mask, set, n, h), 2 * n),
    decreases n,
{
    let script = |h: Seq<u32>| poll_run(addr, mask, set, n, h);
    if n > 0 {
        lemma_poll_ends(addr, mask, set, (n - 1) as nat);
        let less = |h: Seq<u32>| poll_run(addr, mask, set, (n - 1) as nat, h);
        assert forall|h: Seq<u32>| h.len() >= 2 * n implies (#[trigger] script(h) matches Run::Finished(
            _,
            left,
        ) && left.len() + 2 * n >= h.len()) by {
            let h2 = h.drop_first().drop_first();
            assert(less(h2) == poll_run(addr, mask, set, (n - 1) as nat, h2));
        }
    }
}

proof fn lemma_interrupt_ends(mask: u32, n: nat)
    ensures
        ends_within(|h: Seq<u32>| interrupt_run(mask, n, h), 2 * n),
    decreases n,
{
    let script = |h: Seq<u32>| interrupt_run(mask, n, h);
    if n > 0 {
        lemma_interrupt_ends(mask, (n - 1) as nat);
        let less = |h: Seq<u32>| interrupt_run(mask, (n - 1) as nat, h);
        assert forall|h: Seq<u32>| h.len() >= 2 * n implies (#[trigger] script(h) matches Run::Finished(
            _,
            left,
        ) && left.len() + 2 * n >= h.len()) by {
            let h2 = h.drop_first().drop_first();
            assert(less(h2) == interrupt_run(mask, (n - 1) as nat, h2));
        }
    }
}

/// The longest that a command takes: 10 ms and 200 ms of polling, and four more
/// operations.
pub open spec fn issue_bound() -> nat {
    (2 * POLLS_10_MS + 2 * POLLS_200_MS + 4) as nat
}

proof fn lemma_issue_ends(cmd: u32, arg: u32)
    ensures
        ends_within(|h: Seq<u32>| issue_run(cmd, arg, h), issue_bound()),
{
    let script = |h: Seq<u32>| issue_run(cmd, arg, h);
    let poll = |h: Seq<u32>| poll_run(EMMC_STATUS, SR_INHIBIT, false, POLLS_10_MS as nat, h);
    let wait = |h: Seq<u32>| interrupt_run(INT_CMD_DONE, POLLS_200_MS as nat, h);
    lemma_poll_ends(EMMC_STATUS, SR_INHIBIT, false, POLLS_10_MS as nat);
    lemma_interrupt_ends(INT_CMD_DONE, POLLS_200_MS as nat);
    assert forall|h: Seq<u32>| h.len() >= issue_bound() implies (#[trigger] script(
        h,
    ) matches Run::Finished(_, left) && left.len() + issue_bound() >= h.len()) by {
        assert(poll(h) is Finished);
        let h1 = poll(h)->Finished_1;
        lemma_batch_ends(issue_ops(cmd, arg), h1);
        let h2 = h1.skip(3);
        assert(wait(h2) is Finished);
    }
}

proof fn lemma_words_end(n: nat, got: Seq<u8>)
    ensures
        ends_within(
            |h: Seq<u32>| block_words_run(n, got, h),
            (n + 2 * POLLS_200_MS) as nat,
        ),
    decreases n,
{
    let script = |h: Seq<u32>| block_words_run(n, got, h);
    let bound = (n + 2 * POLLS_200_MS) as nat;
    lemma_interrupt_ends(INT_DATA_DONE, POLLS_200_MS as nat);
    let wait = |h: Seq<u32>| interrupt_run(INT_DATA_DONE, POLLS_200_MS as nat, h);
    assert forall|h: Seq<u32>| h.len() >= bound implies (#[trigger] script(h) matches Run::Finished(
        _,
        left,
    ) && left.len() + bound >= h.len()) by {
        if n == 0 {
            assert(wait(h) is Finished);
        } else {
            let more = got + word_bytes(h[0]);
            lemma_words_end((n - 1) as nat, more);
            let less = |h: Seq<u32>| block_words_run((n - 1) as nat, more, h);
            assert(less(h.drop_first()) is Finished);
        }
    }
}

/// Reading a block always ends, whatever the controller and the card do.
pub proof fn lemma_read_block_ends(card: SdCard, lba: u32)
    ensures
        ends_within(
            |h: Seq<u32>| sd_read_block_run(card, lba, h),
            (1 + issue_bound() + 4 * POLLS_200_MS + 128) as nat,
        ),
{
    let script = |h: Seq<u32>| sd_read_block_run(card, lba, h);
    let bound = (1 + issue_bound() + 4 * POLLS_200_MS + 128) as nat;
    let arg = block_address(card, lba);
    let issue = |h: Seq<u32>| issue_run(CMD17, arg, h);
    let wait = |h: Seq<u32>| interrupt_run(INT_READ_RDY, POLLS_200_MS as nat, h);
    let words = |h: Seq<u32>| block_words_run(128, Seq::empty(), h);
    lemma_issue_ends(CMD17, arg);
    lemma_interrupt_ends(INT_READ_RDY, POLLS_200_MS as nat);
    lemma_words_end(128, Seq::empty());
    assert(CMD17 & CMD_NEED_APP == 0) by (bit_vector);
    assert forall|h: Seq<u32>| h.len() >= bound implies (#[trigger] script(h) matches Run::Finished(
        _,
        left,
    ) && left.len() + bound >= h.len()) by {
        let h1 = h.drop_first();
        assert(issue(h1) is Finished);
        let h2 = issue(h1)->Finished_1;
        assert(wait(h2) is Finished);
        let h3 = wait(h2)->Finished_1;
        assert(words(h3) is Finished);
    }
}

// ── Power before commands ──────────────────────────────────────────────────

/// A command is handed to the controller.
pub open spec fn is_command(op: RegOp) -> bool {
    op matches RegOp::Write(addr, _) && addr == EMMC_CMDTM
}

/// The part of [`sd_init_run`] up to the moment when the bus is powered at 3.3 V. The
/// value is the controller's clock rate, or `None` where it cannot be reset.
pub open spec fn power_up_run(supply: u64, clock: u64, h: Seq<u32>) -> RegRun<Option<u32>> {
    disable_18v_supply_run(supply, h).and_then(
        |_a: Option<u32>, h: Seq<u32>|
            op_run(sleep_op(5), h).and_then(|_v: u32, h: Seq<u32>| power_clock_run(clock, h)),
    )
}

pub open spec fn power_clock_run(clock: u64, h: Seq<u32>) -> RegRun<Option<u32>> {
    get_emmc_clock_hz_run(clock, h).and_then(
        |base_hz: u32, h: Seq<u32>| power_reset_run(base_hz, h),
    )
}

pub open spec fn power_reset_run(base_hz: u32, h: Seq<u32>) -> RegRun<Option<u32>> {
    batch_run(reset_ops(), h).and_then(
        |_v: (), h: Seq<u32>|
            poll_run(EMMC_CONTROL1, C1_SRST_HC, false, POLLS_100_MS as nat, h).and_then(
                |ok: bool, h: Seq<u32>|
                    if ok {
                        power_bus_run(base_hz, h)
                    } else {
                        Run::Finished(None, h)
                    },
            ),
    )
}

pub open spec fn power_bus_run(base_hz: u32, h: Seq<u32>) -> RegRun<Option<u32>> {
    update_run(EMMC_CONTROL0, ALL_BITS, C0_VDD1_3V3, 2, h).and_then(
        |_v: (), h: Seq<u32>| Run::Finished(Some(base_hz), h),
    )
}

/// The part of [`sd_init_run`] after the bus is powered.
pub open spec fn powered_run(card: SdCard, base_hz: u32, h: Seq<u32>) -> RegRun<(bool, SdCard)> {
    update_run(EMMC_CONTROL1, ALL_BITS, C1_TOUNIT_MAX, 0, h).and_then(
        |_v: (), h: Seq<u32>|
            set_clock_run(base_hz, IDENT_HZ, h).and_then(
                |_v: (), h: Seq<u32>| init_idle_run(card, base_hz, h),
            ),
    )
}

proof fn lemma_reset_splits(card: SdCard, base_hz: u32, h: Seq<u32>)
    ensures
        init_reset_run(card, base_hz, h) == power_reset_run(base_hz, h).and_then(
            |hz: Option<u32>, h: Seq<u32>|
                match hz {
                    Some(base_hz) => powered_run(card, base_hz, h),
                    None => Run::Finished((false, card), h),
                },
        ),
{
}

proof fn lemma_poll_sends_nothing(addr: u64, mask: u32, set: bool, n: nat, h: Seq<u32>)
    ensures
        poll_run(addr, mask, set, n, h) matches Run::Wants(op) ==> !is_command(op),
    decreases n,
{
    if n > 0 && h.len() > 1 {
        lemma_poll_sends_nothing(addr, mask, set, (n - 1) as nat, h.drop_first().drop_first());
    }
}

proof fn lemma_batch_sends_nothing(ops: Seq<RegOp>, h: Seq<u32>)
    requires
        forall|i: int| 0 <= i < ops.len() ==> !is_command(#[trigger] ops[i]),
    ensures
        batch_run(ops, h) matches Run::Wants(op) ==> !is_command(op),
    decreases ops.len(),
{
    if ops.len() > 0 && h.len() > 0 {
        lemma_batch_sends_nothing(ops.drop_first(), h.drop_first());
    }
}

proof fn lemma_reply_sends_nothing(t: nat, h: Seq<u32>)
    ensures
        reply_run(t, h) matches Run::Wants(op) ==> !is_command(op),
        reply_word_run(t, h) matches Run::Wants(op) ==> !is_command(op),
    decreases h.len(),
{
    if h.len() > 0 {
        lemma_reply_sends_nothing((t - 1) as nat, h.drop_first());
        lemma_reply_sends_nothing(t, h.drop_first());
    }
}

proof fn lemma_post_sends_nothing(phys: u64, t: nat, h: Seq<u32>)
    ensures
        post_run(phys, t, h) matches Run::Wants(op) ==> !is_command(op),
    decreases t,
{
    if h.len() > 0 {
        let h1 = h.drop_first();
        if h[0] & MBOX_FULL == 0 {
            if h1.len() > 0 {
                lemma_reply_sends_nothing(MBOX_EMPTY_POLLS as nat, h1.drop_first());
            }
        } else if t > 1 {
            lemma_post_sends_nothing(phys, (t - 1) as nat, h1);
        }
    }
}

/// The message lies in memory, not among the registers.
pub open spec fn in_memory(phys: u64) -> bool {
    phys + 32 <= 0xFE00_0000
}

proof fn lemma_property_sends_nothing(phys: u64, offset: u64, h: Seq<u32>)
    requires
        in_memory(phys),
        offset <= 28,
    ensures
        property_read_run(phys, offset, h) matches Run::Wants(op) ==> !is_command(op),
{
    let ops = seq![
        RegOp::Write((phys + 4) as u64, 0),
        RegOp::Write((phys + 24) as u64, 0),
        RegOp::DataSyncBarrier,
    ];
    lemma_batch_sends_nothing(ops, h);
    if let Run::Finished(_, h1) = batch_run(ops, h) {
        lemma_post_sends_nothing(phys, MBOX_FULL_POLLS as nat, h1);
    }
}

proof fn lemma_update_sends_nothing(addr: u64, keep: u32, set: u32, pause_ms: int, h: Seq<u32>)
    requires
        addr != EMMC_CMDTM,
    ensures
        update_run(addr, keep, set, pause_ms, h) matches Run::Wants(op) ==> !is_command(op),
{
    if h.len() > 0 {
        let w = RegOp::Write(addr, h[0] & keep | set);
        lemma_batch_sends_nothing(seq![w], h.drop_first());
        lemma_batch_sends_nothing(seq![w, sleep_op(pause_ms)], h.drop_first());
    }
}

/// No command is sent before the bus is powered at 3.3 V: the initialisation is
/// [`power_up_run`], in which there is none, and then the rest.
pub proof fn lemma_power_before_commands(card: SdCard, supply: u64, clock: u64, h: Seq<u32>)
    requires
        in_memory(supply),
        in_memory(clock),
    ensures
        sd_init_run(card, supply, clock, h) == power_up_run(supply, clock, h).and_then(
            |hz: Option<u32>, h: Seq<u32>|
                match hz {
                    Some(base_hz) => powered_run(card, base_hz, h),
                    None => Run::Finished((false, card), h),
                },
        ),
        power_up_run(supply, clock, h) matches Run::Wants(op) ==> !is_command(op),
{
    lemma_property_sends_nothing(supply, 4, h);
    if let Run::Finished(_, h1) = disable_18v_supply_run(supply, h) {
        if let Run::Finished(_, h2) = op_run(sleep_op(5), h1) {
            lemma_property_sends_nothing(clock, 24, h2);
            if let Run::Finished(base_hz, h3) = get_emmc_clock_hz_run(clock, h2) {
                lemma_reset_splits(card, base_hz, h3);
                lemma_batch_sends_nothing(reset_ops(), h3);
                if let Run::Finished(_, h4) = batch_run(reset_ops(), h3) {
                    lemma_poll_sends_nothing(
                        EMMC_CONTROL1,
                        C1_SRST_HC,
                        false,
                        POLLS_100_MS as nat,
                        h4,
                    );
                    if let Run::Finished(_, h5) = poll_run(
                        EMMC_CONTROL1,
                        C1_SRST_HC,
                        false,
                        POLLS_100_MS as nat,
                        h4,
                    ) {
                        lemma_update_sends_nothing(EMMC_CONTROL0, ALL_BITS, C0_VDD1_3V3, 2, h5);
                    }
                }
            }
        }
    }
}

} // verus!
