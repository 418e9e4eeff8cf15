//! A model of the SD host controller, of the card behind it and of the firmware
//! mailbox, and what the driver achieves with them.

use vstd::prelude::*;
use crate::emmc::{SdCard, sd_init_run, sd_read_block_run, init_clock_run, init_reset_run, init_power_run, init_idle_run, init_if_cond_run, init_op_cond_run, init_cid_run, init_address_run, init_transfer_run, init_select_run, init_block_len_run, op_cond_arg, send_cmd_run, issue_run, issue_write_run, issue_wait_run, issue_ops, reset_ops, enable_interrupts_ops, interrupt_run, poll_run, update_run, set_clock_run, program_divisor_run, start_clock_run, divisor_field, clock_divisor, lemma_divided_clock_is_closest, block_ready_run, block_words_run, word_bytes, block_address, sleep_op, property_run, post_run, reply_run, reply_word_run, property_read_run, get_emmc_clock_hz_run, mailbox_word};
use crate::session::{Run, RegOp, RegRun, op_run, batch_run, cons, ends_with_device, state_after, lemma_device_end, lemma_device_step, lemma_device_op, lemma_device_and_then, lemma_device_batch, lemma_device_then, orderly, ends_orderly, following, lemma_orderly_op, lemma_orderly_end, lemma_orderly_and_then, lemma_orderly_batch, lemma_orderly_prefix};

verus! {

broadcast use crate::session::lemma_cons;

// ── The model ──────────────────────────────────────────────────────────────

/// What a card does with commands: the states of the SD identification and
/// transfer modes.
pub enum CardState {
    Idle,
    Ready,
    Identification,
    Standby,
    Transfer,
}

/// What does not change: the board, the card in its slot, and how fast they are.
pub struct Board {
    /// Where the message lies that has the card's supply set to 3.3 V.
    pub supply: u64,
    /// Where the message lies that asks for the clock rate.
    pub clock: u64,
    /// The base clock of the controller.
    pub hz: u32,
    /// Looks at the interrupts before a finished command shows.
    pub late: nat,
    /// Looks at the interrupts before the state of the data shows.
    pub slow: nat,
    /// There is a card in the slot.
    pub present: bool,
    /// The card knows CMD8.
    pub version2: bool,
    /// The card counts in blocks, not in bytes.
    pub high_capacity: bool,
    /// How often the card says that it is still powering up.
    pub busy: nat,
    /// The low word of the card's identification.
    pub identification: u32,
    /// The address that the card publishes.
    pub address: u32,
    /// The errors that the card reports when it is to read a block, 0 for none.
    pub errors: u32,
    /// The card's content: byte `i` of block `n`.
    pub content: spec_fn(int, int) -> u8,
}

/// What changes.
pub struct Host {
    /// The card's supply is 3.3 V.
    pub supplied: bool,
    /// A message that the firmware has answered and nobody has picked up.
    pub reply: Option<u32>,
    /// The answer word of the clock message.
    pub rate: u32,
    pub control0: u32,
    pub control1: u32,
    /// Interrupts show in the interrupt register.
    pub enabled: bool,
    pub arg: u32,
    pub blocks: u32,
    pub resp: u32,
    /// The command is complete.
    pub done: bool,
    /// There is data to be read.
    pub ready: bool,
    /// The transfer is complete.
    pub complete: bool,
    /// The command was not answered.
    pub error: bool,
    /// Looks until a finished command shows.
    pub wait: nat,
    /// Looks until the state of the data shows.
    pub data_wait: nat,
    /// Instructions until what was switched has settled.
    pub settling: nat,
    /// Something was asked of the controller before that.
    pub hurried: bool,
    /// Instructions until the card takes another command.
    pub rest: nat,
    pub state: CardState,
    /// The next command is an application command.
    pub app: bool,
    /// How often the card was asked to power up.
    pub asked: nat,
    /// The block length is 512 bytes.
    pub length_set: bool,
    /// The block being read, and the word of it that comes next.
    pub block: int,
    pub at: int,
}

/// The divisor of the card's clock, as the SDHCI 3.0 layout of CONTROL1 has it.
pub open spec fn divisor(control1: u32) -> u32 {
    ((control1 >> 8) & 0xFF) | (((control1 >> 6) & 3) << 8)
}

/// The card has a clock of at most `limit` hertz.
pub open spec fn clocked(b: Board, s: Host, limit: int) -> bool {
    &&& s.control1 & 5 == 5
    &&& if divisor(s.control1) == 0 {
        b.hz <= limit
    } else {
        b.hz <= 2 * divisor(s.control1) * limit
    }
}

/// The card hears commands: it has its supply and the bus voltage, a clock that is slow
/// enough for its state, and the time that it needs.
pub open spec fn hears(b: Board, s: Host) -> bool {
    &&& s.settling == 0 && !s.hurried && s.rest == 0
    &&& s.supplied
    &&& s.control0 & 0xF00 == 0xF00
    &&& s.enabled
    &&& clocked(
        b,
        s,
        if s.state is Standby || s.state is Transfer {
            25_000_000
        } else {
            400_000
        },
    )
}

/// The command ends with an answer.
pub open spec fn answer(b: Board, s: Host, resp: u32) -> Host {
    Host { done: true, wait: b.late, resp, app: false, ..s }
}

/// The command ends without one.
pub open spec fn no_answer(b: Board, s: Host) -> Host {
    Host { error: true, wait: b.late, app: false, ..s }
}

/// The command is one that `index` names and has the flags of its response: none (0),
/// 136 bits (1), 48 bits (2) or 48 bits and busy (3).
pub open spec fn names(command: u32, index: int, response: int) -> bool {
    command / 0x0100_0000 == index && command / 0x1_0000 % 4 == response
}

/// A command is written to the controller.
pub open spec fn command(b: Board, s: Host, c: u32) -> Host {
    if !hears(b, s) {
        s
    } else if names(c, 0, 0) {
        answer(
            b,
            Host {
                state: CardState::Idle,
                asked: 0,
                length_set: false,
                rest: 3_000_000,
                ..s
            },
            s.resp,
        )
    } else if !b.present {
        no_answer(b, s)
    } else if names(c, 8, 2) && s.state is Idle && b.version2 {
        answer(b, s, (s.arg % 0x1000) as u32)
    } else if names(c, 55, 2) && s.arg / 0x1_0000 == (if s.state is Standby || s.state is Transfer {
        b.address
    } else {
        0
    }) {
        Host { app: true, ..answer(b, s, 0x120) }
    } else if names(c, 41, 2) && s.app && s.state is Idle && c / 0x8_0000 % 4 == 0 && s.arg / 0x8000
        % 0x200 == 0x1FF {
        if s.asked < b.busy || (b.high_capacity && s.arg / 0x4000_0000 % 2 == 0) {
            answer(b, Host { asked: s.asked + 1, rest: 7_500_000, ..s }, 0x00FF_8000)
        } else {
            answer(
                b,
                Host { state: CardState::Ready, ..s },
                if b.high_capacity {
                    0xC0FF_8000
                } else {
                    0x80FF_8000
                },
            )
        }
    } else if names(c, 2, 1) && s.state is Ready && c / 0x10_0000 % 2 == 0 {
        answer(b, Host { state: CardState::Identification, ..s }, b.identification)
    } else if names(c, 3, 2) && s.state is Identification {
        answer(
            b,
            Host { state: CardState::Standby, ..s },
            (b.address * 0x1_0000 + 0x500) as u32,
        )
    } else if names(c, 7, 3) && s.state is Standby && s.arg / 0x1_0000 == b.address {
        answer(b, Host { state: CardState::Transfer, ..s }, 0x700)
    } else if names(c, 16, 2) && s.state is Transfer && s.arg == 512 {
        answer(b, Host { length_set: true, ..s }, 0x900)
    } else if names(c, 17, 2) && s.state is Transfer && c / 0x20_0000 % 2 == 1 && c / 0x10 % 2 == 1
        && s.blocks == 0x0001_0200 && (b.high_capacity || (s.length_set && s.arg % 512 == 0)) {
        answer(
            b,
            Host {
                ready: b.errors == 0,
                data_wait: b.late + b.slow,
                block: if b.high_capacity {
                    s.arg as int
                } else {
                    s.arg as int / 512
                },
                at: 0,
                ..s
            },
            (0x900 + 0x1_0000 * b.errors) as u32,
        )
    } else {
        no_answer(b, s)
    }
}

/// What the interrupt register shows.
pub open spec fn shown(s: Host) -> u32 {
    (if s.done && s.wait == 0 {
        1u32
    } else {
        0u32
    }) | (if s.complete && s.data_wait == 0 {
        2u32
    } else {
        0u32
    }) | (if s.ready && s.data_wait == 0 {
        0x20u32
    } else {
        0u32
    }) | (if s.error && s.wait == 0 {
        0x1_0000u32
    } else {
        0u32
    })
}

pub open spec fn less(n: nat, k: nat) -> nat {
    if n > k {
        (n - k) as nat
    } else {
        0
    }
}

/// The word of four bytes, the lowest first.
pub open spec fn word_of(b0: u8, b1: u8, b2: u8, b3: u8) -> u32 {
    (b0 + 0x100 * b1 + 0x1_0000 * b2 + 0x100_0000 * b3) as u32
}

/// Word `i` of block `n` of the card.
pub open spec fn content_word(b: Board, n: int, i: int) -> u32 {
    word_of(
        (b.content)(n, 4 * i),
        (b.content)(n, 4 * i + 1),
        (b.content)(n, 4 * i + 2),
        (b.content)(n, 4 * i + 3),
    )
}

pub open spec fn read(b: Board, s: Host, a: u64) -> (u32, Host) {
    if a == 0xFE34_0010 {
        (s.resp, s)
    } else if a == 0xFE34_0020 {
        if 0 <= s.at < 128 {
            (
                content_word(b, s.block, s.at),
                Host {
                    at: s.at + 1,
                    complete: s.complete || s.at == 127,
                    data_wait: if s.at == 127 {
                        b.slow
                    } else {
                        s.data_wait
                    },
                    ..s
                },
            )
        } else {
            (0, s)
        }
    } else if a == 0xFE34_0024 {
        (0, s)
    } else if a == 0xFE34_0028 {
        (s.control0, s)
    } else if a == 0xFE34_002C {
        // The internal clock is stable once it is on.
        (
            if s.control1 & 1 == 1 {
                s.control1 | 2
            } else {
                s.control1
            },
            s,
        )
    } else if a == 0xFE34_0030 {
        (shown(s), Host { wait: less(s.wait, 1), data_wait: less(s.data_wait, 1), ..s })
    } else if a == 0xFE00_B898 {
        (
            if s.reply is Some {
                0
            } else {
                0x4000_0000
            },
            s,
        )
    } else if a == 0xFE00_B880 {
        (s.reply.unwrap_or(0), Host { reply: None, ..s })
    } else if a == b.clock + 24 {
        (s.rate, s)
    } else {
        (0, s)
    }
}

pub open spec fn write(b: Board, s: Host, a: u64, v: u32) -> Host {
    if a == 0xFE34_0004 {
        Host { blocks: v, ..s }
    } else if a == 0xFE34_0008 {
        Host { arg: v, ..s }
    } else if a == 0xFE34_000C {
        command(b, s, v)
    } else if a == 0xFE34_0028 {
        Host {
            control0: v,
            settling: if v & 0xF00 == 0xF00 {
                3_000_000
            } else {
                s.settling
            },
            ..s
        }
    } else if a == 0xFE34_002C {
        if v & 0x0100_0000 != 0 {
            // A reset of the whole controller.
            Host {
                settling: 15_000_000,
                hurried: false,
                rest: 0,
                control0: 0,
                control1: 0,
                enabled: false,
                done: false,
                ready: false,
                complete: false,
                error: false,
                wait: 0,
                data_wait: 0,
                ..s
            }
        } else {
            Host {
                control1: v,
                settling: if v % 0x1_0000 != 0 {
                    3_000_000
                } else {
                    s.settling
                },
                ..s
            }
        }
    } else if a == 0xFE34_0030 {
        // A bit is cleared by writing a one to it.
        Host {
            done: s.done && v & 1 == 0,
            complete: s.complete && v & 2 == 0,
            ready: s.ready && v & 0x20 == 0,
            error: s.error && v & 0x1_0000 == 0,
            ..s
        }
    } else if a == 0xFE34_0034 {
        Host { enabled: v == 0xFFFF_FFFF, ..s }
    } else if a == 0xFE00_B8A0 {
        if v == b.supply + 8 {
            Host { reply: Some(v), supplied: true, settling: 7_500_000, ..s }
        } else if v == b.clock + 8 {
            Host { reply: Some(v), rate: b.hz, ..s }
        } else {
            s
        }
    } else if a == b.clock + 24 {
        Host { rate: v, ..s }
    } else {
        s
    }
}

/// One of the controller's registers is asked for: too early, while something settles.
pub open spec fn touched(s: Host, a: u64) -> Host {
    if 0xFE34_0000 <= a < 0xFE34_0100 && s.settling > 0 {
        Host { hurried: true, ..s }
    } else {
        s
    }
}

/// The board after a pause of `n` instructions.
pub open spec fn paused(s: Host, n: nat) -> Host {
    Host { settling: less(s.settling, n), rest: less(s.rest, n), ..s }
}

/// What the board replies to one operation, and how it is then.
pub open spec fn reacts(b: Board, s: Host, op: RegOp) -> (u32, Host) {
    match op {
        RegOp::Read(a) => read(b, touched(s, a), a),
        RegOp::Write(a, v) => (0, write(b, touched(s, a), a, v)),
        RegOp::Nops(n) => (0, paused(s, n as nat)),
        _ => (0, s),
    }
}

pub open spec fn board(b: Board) -> spec_fn(Host, RegOp) -> (u32, Host) {
    |s: Host, op: RegOp| reacts(b, s, op)
}

/// A board on which the driver can work.
pub open spec fn sound(b: Board) -> bool {
    &&& b.supply % 16 == 0
    &&& b.clock % 16 == 0
    &&& b.supply != b.clock
    &&& b.supply + 64 <= 0xFE00_0000
    &&& b.clock + 64 <= 0xFE00_0000
    &&& 0 < b.hz <= 400_000_000
    &&& b.late + b.slow < 300_000_000
    &&& b.busy < 50
    &&& b.high_capacity ==> b.version2
    &&& b.errors < 0x1_0000
    &&& b.identification != 0xFFFF_FFFF
    &&& 0 < b.address < 0xFFFF
}

// ── Waiting ────────────────────────────────────────────────────────────────

proof fn lemma_shown(s: Host)
    ensures
        shown(s) & 0xFFFF_0000 != 0 <==> s.error && s.wait == 0,
        shown(s) & 0x1_0000 != 0 <==> s.error && s.wait == 0,
        shown(s) & 1 != 0 <==> s.done && s.wait == 0,
        shown(s) & 2 != 0 <==> s.complete && s.data_wait == 0,
        shown(s) & 0x20 != 0 <==> s.ready && s.data_wait == 0,
{
    let d = s.done && s.wait == 0;
    let c = s.complete && s.data_wait == 0;
    let r = s.ready && s.data_wait == 0;
    let e = s.error && s.wait == 0;
    let x = (if d {
        1u32
    } else {
        0u32
    }) | (if c {
        2u32
    } else {
        0u32
    }) | (if r {
        0x20u32
    } else {
        0u32
    }) | (if e {
        0x1_0000u32
    } else {
        0u32
    });
    assert((x & 0xFFFF_0000 != 0 <==> e) && (x & 0x1_0000 != 0 <==> e) && (x & 1 != 0 <==> d) && (x
        & 2 != 0 <==> c) && (x & 0x20 != 0 <==> r)) by (bit_vector)
        requires
            x == (if d {
                1u32
            } else {
                0u32
            }) | (if c {
                2u32
            } else {
                0u32
            }) | (if r {
                0x20u32
            } else {
                0u32
            }) | (if e {
                0x1_0000u32
            } else {
                0u32
            }),
    ;
}

proof fn lemma_masks()
    ensures
        1u32 & 1 != 0,
        1u32 & 2 == 0,
        1u32 & 0x20 == 0,
        1u32 & 0x1_0000 == 0,
        2u32 & 1 == 0,
        2u32 & 2 != 0,
        2u32 & 0x20 == 0,
        2u32 & 0x1_0000 == 0,
        0x20u32 & 1 == 0,
        0x20u32 & 2 == 0,
        0x20u32 & 0x20 != 0,
        0x20u32 & 0x1_0000 == 0,
        0xFFFF_FFFFu32 & 1 != 0,
        0xFFFF_FFFFu32 & 2 != 0,
        0xFFFF_FFFFu32 & 0x20 != 0,
        0xFFFF_FFFFu32 & 0x1_0000 != 0,
        0u32 & 3 == 0,
        0u32 & 0xFFFF_0000 == 0,
        0u32 & 1 == 0,
        3u32 & 3 != 0,
        0x0100_0000u32 & 0x0100_0000 != 0,
        0x8000_0000u32 & 0x8000_0000 != 0,
        0x4000_0000u32 & 0x4000_0000 != 0,
        0x4000_0000u32 & 0x8000_0000 == 0,
{
    assert(1u32 & 1 != 0 && 1u32 & 2 == 0 && 1u32 & 0x20 == 0 && 1u32 & 0x1_0000 == 0 && 2u32 & 1
        == 0 && 2u32 & 2 != 0 && 2u32 & 0x20 == 0 && 2u32 & 0x1_0000 == 0 && 0x20u32 & 1 == 0
        && 0x20u32 & 2 == 0 && 0x20u32 & 0x20 != 0 && 0x20u32 & 0x1_0000 == 0 && 0xFFFF_FFFFu32 & 1
        != 0 && 0xFFFF_FFFFu32 & 2 != 0 && 0xFFFF_FFFFu32 & 0x20 != 0 && 0xFFFF_FFFFu32 & 0x1_0000
        != 0 && 0u32 & 3 == 0 && 0u32 & 0xFFFF_0000 == 0 && 0u32 & 1 == 0 && 3u32 & 3 != 0
        && 0x0100_0000u32 & 0x0100_0000 != 0 && 0x8000_0000u32 & 0x8000_0000 != 0 && 0x4000_0000u32
        & 0x4000_0000 != 0 && 0x4000_0000u32 & 0x8000_0000 == 0) by (bit_vector);
}

/// The looks that the interrupt `mask` still takes.
pub open spec fn looks(s: Host, mask: u32) -> nat {
    if mask == 1 {
        s.wait
    } else {
        s.data_wait
    }
}

/// The interrupt `mask` is on its way, and no error is.
pub open spec fn coming(s: Host, mask: u32) -> bool {
    &&& s.settling == 0
    &&& !s.error
    &&& mask == 1 && s.done || mask == 2 && s.complete || mask == 0x20 && s.ready
}

/// The state after the interrupt `mask` was seen and cleared.
pub open spec fn seen(s: Host, mask: u32) -> Host {
    Host {
        done: s.done && mask != 1,
        complete: s.complete && mask != 2,
        ready: s.ready && mask != 0x20,
        wait: less(s.wait, looks(s, mask) + 1),
        data_wait: less(s.data_wait, looks(s, mask) + 1),
        rest: less(s.rest, looks(s, mask)),
        ..s
    }
}

proof fn lemma_interrupt_comes(b: Board, s: Host, mask: u32, n: nat)
    requires
        coming(s, mask),
        looks(s, mask) < n,
    ensures
        ends_with_device(
            |h: Seq<u32>| interrupt_run(mask, n, h),
            board(b),
            s,
            true,
            seen(s, mask),
        ),
    decreases n,
{
    let script = |h: Seq<u32>| interrupt_run(mask, n, h);
    let op = RegOp::Read(0xFE34_0030);
    let r = shown(s);
    let s1 = reacts(b, s, op).1;
    lemma_shown(s);
    lemma_masks();
    assert(script(Seq::empty()) == RegRun::<bool>::Wants(op));
    if looks(s, mask) == 0 {
        let ack = RegOp::Write(0xFE34_0030, mask);
        let s2 = reacts(b, s1, ack).1;
        assert(s2 == seen(s, mask));
        let end = |h: Seq<u32>| RegRun::<bool>::Finished(true, h);
        lemma_device_end(end, board(b), s2, true);
        let left = |h: Seq<u32>|
            op_run(ack, h).and_then(|_v: u32, h: Seq<u32>| RegRun::<bool>::Finished(true, h));
        assert forall|g: Seq<u32>| #[trigger] end(g) == left(cons(0, g)) by {
            lemma_pair(0, g);
        }
        lemma_device_step(left, end, board(b), ack, s1, true, s2);
        assert forall|g: Seq<u32>| #[trigger] left(g) == script(cons(r, g)) by {
            lemma_pair(r, g);
        }
        lemma_device_step(script, left, board(b), op, s, true, s2);
    } else {
        let pause = RegOp::Nops(1);
        let s2 = paused(s1, 1);
        assert(seen(s2, mask) == seen(s, mask));
        lemma_interrupt_comes(b, s2, mask, (n - 1) as nat);
        let again = |h: Seq<u32>| interrupt_run(mask, (n - 1) as nat, h);
        let left = |h: Seq<u32>|
            op_run(pause, h).and_then(
                |_v: u32, h: Seq<u32>| interrupt_run(mask, (n - 1) as nat, h),
            );
        assert forall|g: Seq<u32>| #[trigger] again(g) == left(cons(0, g)) by {
            lemma_pair(0, g);
        }
        lemma_device_step(left, again, board(b), pause, s1, true, seen(s, mask));
        assert forall|g: Seq<u32>| #[trigger] left(g) == script(cons(r, g)) by {
            lemma_pair(r, g);
        }
        lemma_device_step(script, left, board(b), op, s, true, seen(s, mask));
    }
}

proof fn lemma_pair(r: u32, g: Seq<u32>)
    ensures
        cons(r, g).len() > 0,
        cons(r, g)[0] == r,
        cons(r, g).drop_first() == g,
{
}

proof fn lemma_interrupt_fails(b: Board, s: Host, n: nat)
    requires
        s.settling == 0,
        s.error,
        !s.done,
        !s.complete,
        !s.ready,
        s.wait < n,
    ensures
        ends_with_device(
            |h: Seq<u32>| interrupt_run(1, n, h),
            board(b),
            s,
            false,
            (Host {
                error: false,
                wait: 0,
                data_wait: less(s.data_wait, s.wait + 1),
                rest: less(s.rest, s.wait),
                ..s
            }),
        ),
    decreases n,
{
    let script = |h: Seq<u32>| interrupt_run(1, n, h);
    let op = RegOp::Read(0xFE34_0030);
    let r = shown(s);
    let s1 = reacts(b, s, op).1;
    let t = Host {
        error: false,
        wait: 0,
        data_wait: less(s.data_wait, s.wait + 1),
        rest: less(s.rest, s.wait),
        ..s
    };
    lemma_shown(s);
    lemma_masks();
    assert(script(Seq::empty()) == RegRun::<bool>::Wants(op));
    if s.wait == 0 {
        let ack = RegOp::Write(0xFE34_0030, r);
        let s2 = reacts(b, s1, ack).1;
        assert(s2 == t);
        let end = |h: Seq<u32>| RegRun::<bool>::Finished(false, h);
        lemma_device_end(end, board(b), s2, false);
        let left = |h: Seq<u32>|
            op_run(ack, h).and_then(|_v: u32, h: Seq<u32>| RegRun::<bool>::Finished(false, h));
        assert forall|g: Seq<u32>| #[trigger] end(g) == left(cons(0, g)) by {
            lemma_pair(0, g);
        }
        lemma_device_step(left, end, board(b), ack, s1, false, s2);
        assert forall|g: Seq<u32>| #[trigger] left(g) == script(cons(r, g)) by {
            lemma_pair(r, g);
        }
        lemma_device_step(script, left, board(b), op, s, false, s2);
    } else {
        let pause = RegOp::Nops(1);
        lemma_interrupt_fails(b, paused(s1, 1), (n - 1) as nat);
        let again = |h: Seq<u32>| interrupt_run(1, (n - 1) as nat, h);
        let left = |h: Seq<u32>|
            op_run(pause, h).and_then(|_v: u32, h: Seq<u32>| interrupt_run(1, (n - 1) as nat, h));
        assert forall|g: Seq<u32>| #[trigger] again(g) == left(cons(0, g)) by {
            lemma_pair(0, g);
        }
        lemma_device_step(left, again, board(b), pause, s1, false, t);
        assert forall|g: Seq<u32>| #[trigger] left(g) == script(cons(r, g)) by {
            lemma_pair(r, g);
        }
        lemma_device_step(script, left, board(b), op, s, false, t);
    }
}

/// Does `first`, and then what `k` makes of its value.
proof fn lemma_then<T, U>(
    b: Board,
    whole: spec_fn(Seq<u32>) -> RegRun<U>,
    first: spec_fn(Seq<u32>) -> RegRun<T>,
    k: spec_fn(T, Seq<u32>) -> RegRun<U>,
    next: spec_fn(Seq<u32>) -> RegRun<U>,
    s: Host,
    v: T,
    m: Host,
    u: U,
    t: Host,
)
    requires
        forall|h: Seq<u32>| #[trigger] whole(h) == first(h).and_then(k),
        forall|h: Seq<u32>| #[trigger] next(h) == k(v, h),
        ends_with_device(first, board(b), s, v, m),
        ends_with_device(next, board(b), m, u, t),
    ensures
        ends_with_device(whole, board(b), s, u, t),
{
    assert(next =~= (|h: Seq<u32>| k(v, h)));
    lemma_device_and_then(first, k, board(b), s, v, m, u, t);
    assert(whole =~= (|h: Seq<u32>| first(h).and_then(k)));
}

/// A register that is already as the driver waits for it.
proof fn lemma_poll_at_once(b: Board, s: Host, addr: u64, mask: u32, set: bool, n: nat)
    requires
        n > 0,
        s.settling == 0,
        (read(b, s, addr).0 & mask != 0) == set,
    ensures
        ends_with_device(
            |h: Seq<u32>| poll_run(addr, mask, set, n, h),
            board(b),
            s,
            true,
            read(b, s, addr).1,
        ),
{
    let script = |h: Seq<u32>| poll_run(addr, mask, set, n, h);
    let op = RegOp::Read(addr);
    let r = read(b, s, addr).0;
    let end = |h: Seq<u32>| RegRun::<bool>::Finished(true, h);
    lemma_device_end(end, board(b), read(b, s, addr).1, true);
    assert forall|g: Seq<u32>| #[trigger] end(g) == script(cons(r, g)) by {
        lemma_pair(r, g);
    }
    assert(script(Seq::empty()) == RegRun::<bool>::Wants(op));
    lemma_device_step(script, end, board(b), op, s, true, read(b, s, addr).1);
}

// ── Commands ───────────────────────────────────────────────────────────────

/// The state in which a command finds the board: its argument is there and no
/// interrupt is left.
pub open spec fn asked(s: Host, arg: u32) -> Host {
    Host { done: false, ready: false, complete: false, error: false, arg, ..s }
}

/// The state after a command whose end was seen.
pub open spec fn settled(s: Host) -> Host {
    Host {
        done: false,
        error: false,
        wait: 0,
        data_wait: less(s.data_wait, s.wait + 1),
        rest: less(s.rest, s.wait),
        ..s
    }
}

proof fn lemma_issue(b: Board, s: Host, cmd: u32, arg: u32)
    requires
        s.settling == 0,
        ({
            let s2 = command(b, asked(s, arg), cmd & 0x7FFF_FFFF);
            &&& s2.done != s2.error
            &&& s2.wait < 300_000_000
            &&& s2.error ==> !s2.complete && !s2.ready
        }),
    ensures
        ({
            let s2 = command(b, asked(s, arg), cmd & 0x7FFF_FFFF);
            ends_with_device(
                |h: Seq<u32>| issue_run(cmd, arg, h),
                board(b),
                s,
                if s2.error {
                    0xFFFF_FFFF
                } else {
                    s2.resp
                },
                settled(s2),
            )
        }),
{
    let c = (cmd & 0x7FFF_FFFF) as u32;
    let s1 = asked(s, arg);
    let s2 = command(b, s1, c);
    let t = settled(s2);
    let v: u32 = if s2.error {
        0xFFFF_FFFF
    } else {
        s2.resp
    };
    let wait = |h: Seq<u32>| issue_wait_run(h);
    assert(ends_with_device(wait, board(b), s2, v, t)) by {
        let polls = 300_000_000nat;
        let first = |h: Seq<u32>| interrupt_run(1, polls, h);
        let k = |done: bool, h: Seq<u32>|
            if done {
                op_run(RegOp::Read(0xFE34_0010), h)
            } else {
                RegRun::<u32>::Finished(0xFFFF_FFFF, h)
            };
        if s2.error {
            lemma_interrupt_fails(b, s2, polls);
            let next = |h: Seq<u32>| RegRun::<u32>::Finished(0xFFFF_FFFF, h);
            lemma_device_end(next, board(b), t, 0xFFFF_FFFFu32);
            lemma_then(b, wait, first, k, next, s2, false, t, v, t);
        } else {
            lemma_interrupt_comes(b, s2, 1, polls);
            let op = RegOp::Read(0xFE34_0010);
            let next = |h: Seq<u32>| op_run(op, h);
            lemma_device_op(board(b), op, t);
            assert(seen(s2, 1) == t);
            lemma_then(b, wait, first, k, next, s2, true, t, v, t);
        }
    }
    let rest = |h: Seq<u32>| issue_write_run(cmd, arg, h);
    assert(ends_with_device(rest, board(b), s, v, t)) by {
        let ops = issue_ops(cmd, arg);
        let first = |h: Seq<u32>| batch_run::<RegOp, u32>(ops, h);
        lemma_device_batch(board(b), ops, s);
        assert(state_after(board(b), ops, s) == s2) by {
            reveal_with_fuel(state_after, 4);
            lemma_masks();
            assert(ops.drop_first() =~= seq![ops[1], ops[2]]);
            assert(ops.drop_first().drop_first() =~= seq![ops[2]]);
            assert(ops.drop_first().drop_first().drop_first() =~= Seq::empty());
        }
        lemma_then(
            b,
            rest,
            first,
            |_v: (), h: Seq<u32>| issue_wait_run(h),
            wait,
            s,
            (),
            s2,
            v,
            t,
        );
    }
    let whole = |h: Seq<u32>| issue_run(cmd, arg, h);
    let polls = 15_000_000nat;
    let first = |h: Seq<u32>| poll_run(0xFE34_0024, 3, false, polls, h);
    lemma_masks();
    lemma_poll_at_once(b, s, 0xFE34_0024, 3, false, polls);
    lemma_then(
        b,
        whole,
        first,
        |idle: bool, h: Seq<u32>|
            if idle {
                issue_write_run(cmd, arg, h)
            } else {
                RegRun::<u32>::Finished(0xFFFF_FFFF, h)
            },
        rest,
        s,
        true,
        s,
        v,
        t,
    );
}

// ── Reading a block ────────────────────────────────────────────────────────

/// The card is selected, has its fast clock and, where it counts in bytes, its block
/// length.
pub open spec fn can_read(b: Board, s: Host) -> bool {
    &&& b.present
    &&& hears(b, s)
    &&& s.state is Transfer
    &&& b.high_capacity || s.length_set
}

/// The bytes of block `n`.
pub open spec fn block_content(b: Board, n: int) -> Seq<u8> {
    Seq::new(512, |i: int| (b.content)(n, i))
}

proof fn lemma_word_content(b0: u8, b1: u8, b2: u8, b3: u8)
    ensures
        word_bytes(word_of(b0, b1, b2, b3)) == seq![b0, b1, b2, b3],
{
    let c = word_bytes(word_of(b0, b1, b2, b3));
    crate::emmc::lemma_word_bytes(word_of(b0, b1, b2, b3));
    lemma_same_digits(
        b0 as int,
        b1 as int,
        b2 as int,
        b3 as int,
        c[0] as int,
        c[1] as int,
        c[2] as int,
        c[3] as int,
    );
    assert(c =~= seq![b0, b1, b2, b3]);
}

proof fn lemma_same_digits(
    a0: int,
    a1: int,
    a2: int,
    a3: int,
    c0: int,
    c1: int,
    c2: int,
    c3: int,
)
    requires
        0 <= a0 < 256 && 0 <= a1 < 256 && 0 <= a2 < 256 && 0 <= a3 < 256,
        0 <= c0 < 256 && 0 <= c1 < 256 && 0 <= c2 < 256 && 0 <= c3 < 256,
        a0 + 0x100 * a1 + 0x1_0000 * a2 + 0x100_0000 * a3 == c0 + 0x100 * c1 + 0x1_0000 * c2
            + 0x100_0000 * c3,
    ensures
        a0 == c0 && a1 == c1 && a2 == c2 && a3 == c3,
{
    let x = a1 + 0x100 * a2 + 0x1_0000 * a3;
    let y = c1 + 0x100 * c2 + 0x1_0000 * c3;
    assert(a0 + 0x100 * x == c0 + 0x100 * y);
    assert(a0 == c0 && x == y);
    let x2 = a2 + 0x100 * a3;
    let y2 = c2 + 0x100 * c3;
    assert(a1 + 0x100 * x2 == c1 + 0x100 * y2);
    assert(a1 == c1 && x2 == y2);
}

proof fn lemma_words(b: Board, s: Host, n: nat, got: Seq<u8>)
    requires
        n <= 128,
        b.slow < 300_000_000,
        s.at == 128 - n,
        n == 0 ==> s.complete && s.data_wait <= b.slow,
        s.settling == 0,
        s.rest == 0,
        !s.error,
        got == block_content(b, s.block).take(4 * (128 - n)),
    ensures
        exists|t: Host|
            {
                &&& ends_with_device(
                    |h: Seq<u32>| block_words_run(n, got, h),
                    board(b),
                    s,
                    Some(block_content(b, s.block)),
                    t,
                )
                &&& #[trigger] same_card(s, t)
            },
    decreases n,
{
    let script = |h: Seq<u32>| block_words_run(n, got, h);
    let all = block_content(b, s.block);
    if n == 0 {
        let polls = 300_000_000nat;
        lemma_interrupt_comes(b, s, 2, polls);
        let t = seen(s, 2);
        assert(got =~= all);
        let end = |h: Seq<u32>| RegRun::<Option<Seq<u8>>>::Finished(Some(got), h);
        lemma_device_end(end, board(b), t, Some(got));
        lemma_then(
            b,
            script,
            |h: Seq<u32>| interrupt_run(2, polls, h),
            |_done: bool, h: Seq<u32>| RegRun::<Option<Seq<u8>>>::Finished(Some(got), h),
            end,
            s,
            true,
            t,
            Some(got),
            t,
        );
        assert(same_card(s, t));
    } else {
        let op = RegOp::Read(0xFE34_0020);
        let w = reacts(b, s, op).0;
        let s1 = reacts(b, s, op).1;
        let more = got + word_bytes(w);
        let f = b.content;
        lemma_word_content(
            f(s.block, 4 * s.at),
            f(s.block, 4 * s.at + 1),
            f(s.block, 4 * s.at + 2),
            f(s.block, 4 * s.at + 3),
        );
        assert(more =~= all.take(4 * (128 - (n - 1))));
        lemma_words(b, s1, (n - 1) as nat, more);
        let next = |h: Seq<u32>| block_words_run((n - 1) as nat, more, h);
        let t = choose|t: Host|
            {
                &&& ends_with_device(next, board(b), s1, Some(all), t)
                &&& #[trigger] same_card(s1, t)
            };
        assert(script(Seq::empty()) == RegRun::<Option<Seq<u8>>>::Wants(op));
        assert forall|g: Seq<u32>| #[trigger] next(g) == script(cons(w, g)) by {
            lemma_pair(w, g);
        }
        lemma_device_step(script, next, board(b), op, s, Some(all), t);
        assert(same_card(s, t));
    }
}

/// What reading does not change: the supply, the clocks and the state of the card.
pub open spec fn same_card(s: Host, t: Host) -> bool {
    t == (Host {
        blocks: t.blocks,
        arg: t.arg,
        resp: t.resp,
        done: t.done,
        ready: t.ready,
        complete: t.complete,
        error: t.error,
        wait: t.wait,
        data_wait: t.data_wait,
        app: t.app,
        block: t.block,
        at: t.at,
        ..s
    })
}

proof fn lemma_commands()
    ensures
        0x0000_0000u32 & 0x7FFF_FFFF == 0,
        0x0209_0000u32 & 0x7FFF_FFFF == 0x0209_0000,
        0x031A_0000u32 & 0x7FFF_FFFF == 0x031A_0000,
        0x070B_0000u32 & 0x7FFF_FFFF == 0x070B_0000,
        0x081A_0000u32 & 0x7FFF_FFFF == 0x081A_0000,
        0x100A_0000u32 & 0x7FFF_FFFF == 0x100A_0000,
        0x113A_0010u32 & 0x7FFF_FFFF == 0x113A_0010,
        0x3702_0000u32 & 0x7FFF_FFFF == 0x3702_0000,
        0xA902_0000u32 & 0x7FFF_FFFF == 0x2902_0000,
        0x0000_0000u32 & 0x8000_0000 == 0,
        0x0209_0000u32 & 0x8000_0000 == 0,
        0x031A_0000u32 & 0x8000_0000 == 0,
        0x070B_0000u32 & 0x8000_0000 == 0,
        0x081A_0000u32 & 0x8000_0000 == 0,
        0x100A_0000u32 & 0x8000_0000 == 0,
        0x113A_0010u32 & 0x8000_0000 == 0,
        0xA902_0000u32 & 0x8000_0000 != 0,
        0x900u32 & 0xFFFF_0000 == 0,
{
    assert(0x0000_0000u32 & 0x7FFF_FFFF == 0 && 0x0209_0000u32 & 0x7FFF_FFFF == 0x0209_0000
        && 0x031A_0000u32 & 0x7FFF_FFFF == 0x031A_0000 && 0x070B_0000u32 & 0x7FFF_FFFF
        == 0x070B_0000 && 0x081A_0000u32 & 0x7FFF_FFFF == 0x081A_0000 && 0x100A_0000u32
        & 0x7FFF_FFFF == 0x100A_0000 && 0x113A_0010u32 & 0x7FFF_FFFF == 0x113A_0010
        && 0x3702_0000u32 & 0x7FFF_FFFF == 0x3702_0000 && 0xA902_0000u32 & 0x7FFF_FFFF
        == 0x2902_0000 && 0x0000_0000u32 & 0x8000_0000 == 0 && 0x0209_0000u32 & 0x8000_0000 == 0
        && 0x031A_0000u32 & 0x8000_0000 == 0 && 0x070B_0000u32 & 0x8000_0000 == 0 && 0x081A_0000u32
        & 0x8000_0000 == 0 && 0x100A_0000u32 & 0x8000_0000 == 0 && 0x113A_0010u32 & 0x8000_0000
        == 0 && 0xA902_0000u32 & 0x8000_0000 != 0 && 0x900u32 & 0xFFFF_0000 == 0) by (bit_vector);
}

/// With a card that is ready for it, reading block `lba` comes to its end with
/// exactly the bytes of that block, however late the card is within the driver's
/// patience, and leaves the card ready to be read again. The controller announces
/// the data when it has accepted the command, and the end of the transfer only when
/// the last word has been taken.
pub proof fn lemma_block_is_read(b: Board, s: Host, card: SdCard, lba: u32)
    requires
        b.late + b.slow < 300_000_000,
        can_read(b, s),
        b.errors == 0,
        card.hccs == b.high_capacity,
        b.high_capacity || lba < 0x80_0000,
    ensures
        exists|t: Host|
            {
                &&& ends_with_device(
                    |h: Seq<u32>| sd_read_block_run(card, lba, h),
                    board(b),
                    s,
                    Some(block_content(b, lba as int)),
                    t,
                )
                &&& can_read(b, t)
                &&& #[trigger] same_card(s, t)
            },
{
    let all = Some(block_content(b, lba as int));
    let script = |h: Seq<u32>| sd_read_block_run(card, lba, h);
    let arg = block_address(card, lba);
    let s1 = Host { blocks: 0x0001_0200, ..s };
    let s2 = command(b, asked(s1, arg), 0x113A_0010);
    let s3 = settled(s2);
    let s4 = seen(s3, 0x20);
    lemma_commands();
    assert(s2.block == lba && s2.ready && !s2.complete && s2.at == 0 && s2.done && !s2.error);
    lemma_issue(b, s1, 0x113A_0010, arg);
    assert(block_content(b, s4.block).take(0) =~= Seq::empty());
    lemma_words(b, s4, 128, Seq::empty());
    let words = |h: Seq<u32>| block_words_run(128, Seq::empty(), h);
    let t = choose|t: Host|
        {
            &&& ends_with_device(words, board(b), s4, all, t)
            &&& #[trigger] same_card(s4, t)
        };
    let polls = 300_000_000nat;
    lemma_interrupt_comes(b, s3, 0x20, polls);
    let ready = |h: Seq<u32>| block_ready_run(h);
    lemma_then(
        b,
        ready,
        |h: Seq<u32>| interrupt_run(0x20, polls, h),
        |ready: bool, h: Seq<u32>|
            if ready {
                block_words_run(128, Seq::empty(), h)
            } else {
                RegRun::<Option<Seq<u8>>>::Finished(None, h)
            },
        words,
        s3,
        true,
        s4,
        all,
        t,
    );
    let sent = |h: Seq<u32>| send_cmd_run(card.rca, 0x113A_0010, arg, h);
    assert(sent =~= (|h: Seq<u32>| issue_run(0x113A_0010, arg, h)));
    let k = |resp: u32, h: Seq<u32>|
        if resp & 0xFFFF_0000 != 0 {
            RegRun::<Option<Seq<u8>>>::Finished(None, h)
        } else {
            block_ready_run(h)
        };
    let rest = |h: Seq<u32>| send_cmd_run(card.rca, 0x113A_0010, arg, h).and_then(k);
    lemma_then(b, rest, sent, k, ready, s1, 0x900, s3, all, t);
    let op = RegOp::Write(0xFE34_0004, 0x0001_0200);
    lemma_device_op(board(b), op, s);
    lemma_then(
        b,
        script,
        |h: Seq<u32>| op_run(op, h),
        |_v: u32, h: Seq<u32>| send_cmd_run(card.rca, 0x113A_0010, arg, h).and_then(k),
        rest,
        s,
        0,
        s1,
        all,
        t,
    );
    assert(same_card(s, t));
}

// ── Data is not read before it is there ────────────────────────────────────

proof fn lemma_orderly_poll(addr: u64, mask: u32, set: bool, n: nat)
    ensures
        orderly(|h: Seq<u32>| poll_run(addr, mask, set, n, h)),
    decreases n,
{
    let script = |h: Seq<u32>| poll_run(addr, mask, set, n, h);
    if n == 0 {
        lemma_orderly_end::<RegOp, u32, bool>(false);
        assert(script =~= (|h: Seq<u32>| RegRun::<bool>::Finished(false, h)));
    } else {
        let m = (n - 1) as nat;
        lemma_orderly_poll(addr, mask, set, m);
        let again = |_v: u32, h: Seq<u32>| poll_run(addr, mask, set, m, h);
        let pause = |h: Seq<u32>| op_run::<RegOp, u32>(RegOp::Nops(1), h);
        lemma_orderly_op::<RegOp, u32>(RegOp::Nops(1));
        assert forall|v: u32| orderly(#[trigger] following(again, v)) by {
            assert(following(again, v) =~= (|h: Seq<u32>| poll_run(addr, mask, set, m, h)));
        }
        lemma_orderly_and_then(pause, again);
        lemma_orderly_end::<RegOp, u32, bool>(true);
        let k = |v: u32, h: Seq<u32>|
            if (v & mask != 0) == set {
                RegRun::<bool>::Finished(true, h)
            } else {
                op_run(RegOp::Nops(1), h).and_then(again)
            };
        assert forall|v: u32| orderly(#[trigger] following(k, v)) by {
            if (v & mask != 0) == set {
                assert(following(k, v) =~= (|h: Seq<u32>| RegRun::<bool>::Finished(true, h)));
            } else {
                assert(following(k, v) =~= (|h: Seq<u32>| pause(h).and_then(again)));
            }
        }
        let first = |h: Seq<u32>| op_run::<RegOp, u32>(RegOp::Read(addr), h);
        lemma_orderly_op::<RegOp, u32>(RegOp::Read(addr));
        lemma_orderly_and_then(first, k);
        assert(script =~= (|h: Seq<u32>| first(h).and_then(k)));
    }
}

/// What is done with the interrupt register's content while waiting for `mask`.
spec fn after_look(mask: u32, n: nat, irpt: u32, h: Seq<u32>) -> RegRun<bool> {
    if irpt & 0xFFFF_0000 != 0 {
        op_run(RegOp::Write(0xFE34_0030, irpt), h).and_then(
            |_v: u32, h: Seq<u32>| RegRun::<bool>::Finished(false, h),
        )
    } else if irpt & mask != 0 {
        op_run(RegOp::Write(0xFE34_0030, mask), h).and_then(
            |_v: u32, h: Seq<u32>| RegRun::<bool>::Finished(true, h),
        )
    } else {
        op_run(RegOp::Nops(1), h).and_then(|_v: u32, h: Seq<u32>| interrupt_run(mask, n, h))
    }
}

proof fn lemma_orderly_op_end(op: RegOp, v: bool)
    ensures
        orderly(
            |h: Seq<u32>|
                op_run(op, h).and_then(|_v: u32, h: Seq<u32>| RegRun::<bool>::Finished(v, h)),
        ),
{
    let k = |_v: u32, h: Seq<u32>| RegRun::<bool>::Finished(v, h);
    let first = |h: Seq<u32>| op_run::<RegOp, u32>(op, h);
    lemma_orderly_op::<RegOp, u32>(op);
    lemma_orderly_end::<RegOp, u32, bool>(v);
    assert forall|r: u32| orderly(#[trigger] following(k, r)) by {
        assert(following(k, r) =~= (|h: Seq<u32>| RegRun::<bool>::Finished(v, h)));
    }
    lemma_orderly_and_then(first, k);
    assert((|h: Seq<u32>|
        op_run(op, h).and_then(|_v: u32, h: Seq<u32>| RegRun::<bool>::Finished(v, h))) =~= (
    |h: Seq<u32>| first(h).and_then(k)));
}

proof fn lemma_orderly_interrupt(mask: u32, n: nat)
    ensures
        orderly(|h: Seq<u32>| interrupt_run(mask, n, h)),
    decreases n, 0int,
{
    let script = |h: Seq<u32>| interrupt_run(mask, n, h);
    if n == 0 {
        lemma_orderly_end::<RegOp, u32, bool>(false);
        assert(script =~= (|h: Seq<u32>| RegRun::<bool>::Finished(false, h)));
    } else {
        let m = (n - 1) as nat;
        let k = |v: u32, h: Seq<u32>| after_look(mask, m, v, h);
        assert forall|v: u32| orderly(#[trigger] following(k, v)) by {
            lemma_orderly_look(mask, m, v);
            assert(following(k, v) =~= (|h: Seq<u32>| after_look(mask, m, v, h)));
        }
        let first = |h: Seq<u32>| op_run::<RegOp, u32>(RegOp::Read(0xFE34_0030), h);
        lemma_orderly_op::<RegOp, u32>(RegOp::Read(0xFE34_0030));
        lemma_orderly_and_then(first, k);
        assert(script =~= (|h: Seq<u32>| first(h).and_then(k)));
    }
}

proof fn lemma_orderly_look(mask: u32, n: nat, irpt: u32)
    ensures
        orderly(|h: Seq<u32>| after_look(mask, n, irpt, h)),
    decreases n, 1int,
{
    let script = |h: Seq<u32>| after_look(mask, n, irpt, h);
    if irpt & 0xFFFF_0000 != 0 {
        let op = RegOp::Write(0xFE34_0030, irpt);
        lemma_orderly_op_end(op, false);
        assert(script =~= (|h: Seq<u32>|
            op_run(op, h).and_then(|_v: u32, h: Seq<u32>| RegRun::<bool>::Finished(false, h))));
    } else if irpt & mask != 0 {
        let op = RegOp::Write(0xFE34_0030, mask);
        lemma_orderly_op_end(op, true);
        assert(script =~= (|h: Seq<u32>|
            op_run(op, h).and_then(|_v: u32, h: Seq<u32>| RegRun::<bool>::Finished(true, h))));
    } else {
        let op = RegOp::Nops(1);
        let again = |_v: u32, h: Seq<u32>| interrupt_run(mask, n, h);
        let first = |h: Seq<u32>| op_run::<RegOp, u32>(op, h);
        lemma_orderly_interrupt(mask, n);
        lemma_orderly_op::<RegOp, u32>(op);
        assert forall|v: u32| orderly(#[trigger] following(again, v)) by {
            assert(following(again, v) =~= (|h: Seq<u32>| interrupt_run(mask, n, h)));
        }
        lemma_orderly_and_then(first, again);
        assert(script =~= (|h: Seq<u32>| first(h).and_then(again)));
    }
}

/// Among the replies `h` there is one to a look at the interrupt register that
/// showed `mask`.
pub open spec fn showed<T>(script: spec_fn(Seq<u32>) -> RegRun<T>, mask: u32, h: Seq<u32>) -> bool {
    exists|i: int|
        {
            &&& 0 <= i < h.len()
            &&& #[trigger] script(h.take(i)) == RegRun::<T>::Wants(RegOp::Read(0xFE34_0030))
            &&& h[i] & mask != 0
        }
}

proof fn lemma_interrupt_showed(mask: u32, n: nat, h: Seq<u32>)
    requires
        interrupt_run(mask, n, h) matches Run::Finished(v, _) && v,
    ensures
        showed(
            |h: Seq<u32>| interrupt_run(mask, n, h),
            mask,
            h.take(h.len() - interrupt_run(mask, n, h)->Finished_1.len()),
        ),
    decreases n,
{
    let script = |h: Seq<u32>| interrupt_run(mask, n, h);
    lemma_orderly_interrupt(mask, n);
    assert(ends_orderly(script, h));
    let taken = h.take(h.len() - interrupt_run(mask, n, h)->Finished_1.len());
    let m = (n - 1) as nat;
    let irpt = h[0];
    if irpt & 0xFFFF_0000 == 0 && irpt & mask != 0 {
        assert(taken.take(0) =~= Seq::<u32>::empty());
        assert(script(taken.take(0)) == RegRun::<bool>::Wants(RegOp::Read(0xFE34_0030)));
        assert(taken[0] == irpt);
    } else {
        let h2 = h.drop_first().drop_first();
        assert(interrupt_run(mask, n, h) == interrupt_run(mask, m, h2));
        lemma_interrupt_showed(mask, m, h2);
        let again = |h: Seq<u32>| interrupt_run(mask, m, h);
        lemma_orderly_interrupt(mask, m);
        assert(ends_orderly(again, h2));
        let t2 = h2.take(h2.len() - interrupt_run(mask, m, h2)->Finished_1.len());
        let i = choose|i: int|
            {
                &&& 0 <= i < t2.len()
                &&& #[trigger] again(t2.take(i)) == RegRun::<bool>::Wants(RegOp::Read(0xFE34_0030))
                &&& t2[i] & mask != 0
            };
        let g = taken.take(i + 2);
        assert(taken.len() == t2.len() + 2);
        assert(g.drop_first().drop_first() =~= t2.take(i));
        assert(g[0] == irpt);
        assert(script(g) == again(t2.take(i)));
        assert(taken[i + 2] == t2[i]);
    }
}

proof fn lemma_orderly_issue(cmd: u32, arg: u32)
    ensures
        orderly(|h: Seq<u32>| issue_run(cmd, arg, h)),
{
    let failed = |h: Seq<u32>| RegRun::<u32>::Finished(0xFFFF_FFFF, h);
    lemma_orderly_end::<RegOp, u32, u32>(0xFFFF_FFFF);
    let wait = |h: Seq<u32>| issue_wait_run(h);
    assert(orderly(wait)) by {
        let n = 300_000_000nat;
        let first = |h: Seq<u32>| interrupt_run(1, n, h);
        lemma_orderly_interrupt(1, n);
        let op = RegOp::Read(0xFE34_0010);
        lemma_orderly_op::<RegOp, u32>(op);
        let k = |done: bool, h: Seq<u32>|
            if done {
                op_run(op, h)
            } else {
                RegRun::<u32>::Finished(0xFFFF_FFFF, h)
            };
        assert forall|v: bool| orderly(#[trigger] following(k, v)) by {
            if v {
                assert(following(k, v) =~= (|h: Seq<u32>| op_run(op, h)));
            } else {
                assert(following(k, v) =~= failed);
            }
        }
        lemma_orderly_and_then(first, k);
        assert(wait =~= (|h: Seq<u32>| first(h).and_then(k)));
    }
    let rest = |h: Seq<u32>| issue_write_run(cmd, arg, h);
    assert(orderly(rest)) by {
        let ops = issue_ops(cmd, arg);
        let first = |h: Seq<u32>| batch_run::<RegOp, u32>(ops, h);
        lemma_orderly_batch::<RegOp, u32>(ops);
        let k = |_v: (), h: Seq<u32>| issue_wait_run(h);
        assert forall|v: ()| orderly(#[trigger] following(k, v)) by {
            assert(following(k, v) =~= wait);
        }
        lemma_orderly_and_then(first, k);
        assert(rest =~= (|h: Seq<u32>| first(h).and_then(k)));
    }
    let n = 15_000_000nat;
    let first = |h: Seq<u32>| poll_run(0xFE34_0024, 3, false, n, h);
    lemma_orderly_poll(0xFE34_0024, 3, false, n);
    let k = |idle: bool, h: Seq<u32>|
        if idle {
            issue_write_run(cmd, arg, h)
        } else {
            RegRun::<u32>::Finished(0xFFFF_FFFF, h)
        };
    assert forall|v: bool| orderly(#[trigger] following(k, v)) by {
        if v {
            assert(following(k, v) =~= rest);
        } else {
            assert(following(k, v) =~= failed);
        }
    }
    lemma_orderly_and_then(first, k);
    assert((|h: Seq<u32>| issue_run(cmd, arg, h)) =~= (|h: Seq<u32>| first(h).and_then(k)));
}

/// No data is read before it is there: when the driver asks for a word of data, then
/// one of its looks at the interrupt register was answered with the bit that says
/// that there is data to be read, whatever else the controller answered.
pub proof fn lemma_data_is_awaited(card: SdCard, lba: u32, h: Seq<u32>)
    requires
        sd_read_block_run(card, lba, h) == RegRun::<Option<Seq<u8>>>::Wants(
            RegOp::Read(0xFE34_0020),
        ),
    ensures
        showed(|h: Seq<u32>| sd_read_block_run(card, lba, h), 0x20, h),
{
    let script = |h: Seq<u32>| sd_read_block_run(card, lba, h);
    let arg = block_address(card, lba);
    let h1 = h.drop_first();
    lemma_commands();
    lemma_orderly_issue(0x113A_0010, arg);
    let sent = |h: Seq<u32>| issue_run(0x113A_0010, arg, h);
    lemma_issue_reads_no_data(0x113A_0010, arg, h1);
    let resp = sent(h1)->Finished_0;
    let h2 = sent(h1)->Finished_1;
    let n = 300_000_000nat;
    let look = |h: Seq<u32>| interrupt_run(0x20, n, h);
    lemma_interrupt_reads_no_data(0x20, n, h2);
    lemma_interrupt_showed(0x20, n, h2);
    lemma_orderly_interrupt(0x20, n);
    assert(ends_orderly(look, h2));
    let taken = h2.take(h2.len() - look(h2)->Finished_1.len());
    let i = choose|i: int|
        {
            &&& 0 <= i < taken.len()
            &&& #[trigger] look(taken.take(i)) == RegRun::<bool>::Wants(RegOp::Read(0xFE34_0030))
            &&& taken[i] & 0x20 != 0
        };
    assert(taken.take(i) =~= h2.take(i));
    let k = |resp: u32, h: Seq<u32>|
        if resp & 0xFFFF_0000 != 0 {
            RegRun::<Option<Seq<u8>>>::Finished(None, h)
        } else {
            block_ready_run(h)
        };
    lemma_orderly_prefix(sent, k, h1, i);
    let m = h1.len() - h2.len();
    let g = h.take(1 + m + i);
    assert(g.drop_first() =~= h1.take(m + i));
    assert(script(g) == sent(h1.take(m + i)).and_then(k));
    assert(script(h.take(1 + m + i)) == RegRun::<Option<Seq<u8>>>::Wants(
        RegOp::Read(0xFE34_0030),
    ));
    assert(h[1 + m + i] == taken[i]);
}

proof fn lemma_interrupt_reads_no_data(mask: u32, n: nat, h: Seq<u32>)
    ensures
        interrupt_run(mask, n, h) != RegRun::<bool>::Wants(RegOp::Read(0xFE34_0020)),
    decreases n,
{
    if n > 0 && h.len() >= 2 {
        lemma_interrupt_reads_no_data(mask, (n - 1) as nat, h.drop_first().drop_first());
    }
}

proof fn lemma_poll_reads_no_data(n: nat, h: Seq<u32>)
    ensures
        poll_run(0xFE34_0024, 3, false, n, h) != RegRun::<bool>::Wants(RegOp::Read(0xFE34_0020)),
    decreases n,
{
    if n > 0 && h.len() >= 2 {
        lemma_poll_reads_no_data((n - 1) as nat, h.drop_first().drop_first());
    }
}

proof fn lemma_issue_reads_no_data(cmd: u32, arg: u32, h: Seq<u32>)
    ensures
        issue_run(cmd, arg, h) != RegRun::<u32>::Wants(RegOp::Read(0xFE34_0020)),
{
    lemma_poll_reads_no_data(15_000_000, h);
    if let Run::Finished(_, h1) = poll_run(0xFE34_0024, 3, false, 15_000_000, h) {
        reveal_with_fuel(batch_run, 4);
        if let Run::Finished(_, h2) = batch_run::<RegOp, u32>(issue_ops(cmd, arg), h1) {
            lemma_interrupt_reads_no_data(1, 300_000_000, h2);
        }
    }
}

// ── Initialisation: mailbox, reset and clock ───────────────────────────────

/// The state after the firmware has answered the message at `phys`.
pub open spec fn told(b: Board, s: Host, phys: u64) -> Host {
    if phys == b.supply {
        Host { supplied: true, settling: 7_500_000, ..s }
    } else {
        Host { rate: b.hz, ..s }
    }
}

proof fn lemma_message_word(phys: u64)
    requires
        phys % 16 == 0,
        phys < 0xFE00_0000,
    ensures
        mailbox_word(phys) == phys + 8,
        mailbox_word(phys) & 0xF == 8,
        0u32 & 0x4000_0000 == 0,
        0x4000_0000u32 & 0x8000_0000 == 0,
{
    let w = mailbox_word(phys);
    assert(w == phys + 8) by (bit_vector)
        requires
            phys % 16 == 0,
            phys < 0xFE00_0000,
            w == ((phys & 0xFFFF_FFFF_FFFF_FFF0) as u32) | 8,
    ;
    assert(w & 0xF == 8 && 0u32 & 0x4000_0000 == 0 && 0x4000_0000u32 & 0x8000_0000 == 0)
        by (bit_vector)
        requires
            w == ((phys & 0xFFFF_FFFF_FFFF_FFF0) as u32) | 8,
    ;
}

/// The state of the clock message's answer word when a message has been prepared.
pub open spec fn prepared(b: Board, s: Host, phys: u64) -> Host {
    if phys == b.clock {
        Host { rate: 0, ..s }
    } else {
        s
    }
}

proof fn lemma_answer_comes(b: Board, s: Host, phys: u64)
    requires
        sound(b),
        s.reply is None,
        phys == b.supply || phys == b.clock,
    ensures
        ends_with_device(
            |h: Seq<u32>| reply_run(100_000, h),
            board(b),
            (Host { reply: Some(mailbox_word(phys)), ..told(b, s, phys) }),
            true,
            told(b, s, phys),
        ),
{
    let w = mailbox_word(phys);
    lemma_message_word(phys);
    let t = told(b, s, phys);
    let s3 = Host { reply: Some(w), ..t };
    let status = RegOp::Read(0xFE00_B898);
    let n = 100_000nat;

    let end = |h: Seq<u32>| RegRun::<bool>::Finished(true, h);
    lemma_device_end(end, board(b), t, true);
    let barrier = |h: Seq<u32>|
        op_run(RegOp::DataSyncBarrier, h).and_then(
            |_v: u32, h: Seq<u32>| RegRun::<bool>::Finished(true, h),
        );
    assert forall|g: Seq<u32>| #[trigger] end(g) == barrier(cons(0, g)) by {
        lemma_pair(0, g);
    }
    lemma_device_step(barrier, end, board(b), RegOp::DataSyncBarrier, t, true, t);

    let word = |h: Seq<u32>| reply_word_run(n, h);
    assert forall|g: Seq<u32>| #[trigger] barrier(g) == word(cons(w, g)) by {
        lemma_pair(w, g);
    }
    assert(reacts(b, s3, RegOp::Read(0xFE00_B880)) == (w, t));
    lemma_device_step(word, barrier, board(b), RegOp::Read(0xFE00_B880), s3, true, t);

    let reply = |h: Seq<u32>| reply_run(n, h);
    assert forall|g: Seq<u32>| #[trigger] word(g) == reply(cons(0, g)) by {
        lemma_pair(0, g);
    }
    lemma_device_step(reply, word, board(b), status, s3, true, t);

}

proof fn lemma_message_posts(b: Board, s: Host, phys: u64)
    requires
        sound(b),
        s.reply is None,
        phys == b.supply || phys == b.clock,
    ensures
        ends_with_device(
            |h: Seq<u32>| post_run(phys, 10_000, h),
            board(b),
            prepared(b, s, phys),
            true,
            told(b, s, phys),
        ),
{
    let w = mailbox_word(phys);
    lemma_message_word(phys);
    lemma_answer_comes(b, s, phys);
    let t = told(b, s, phys);
    let s3 = Host { reply: Some(w), ..t };
    let s2 = prepared(b, s, phys);
    let status = RegOp::Read(0xFE00_B898);
    let n = 100_000nat;
    let reply = |h: Seq<u32>| reply_run(n, h);
    let post = RegOp::Write(0xFE00_B8A0, w);
    let posted = |h: Seq<u32>|
        op_run(post, h).and_then(|_v: u32, h: Seq<u32>| reply_run(n, h));
    assert forall|g: Seq<u32>| #[trigger] reply(g) == posted(cons(0, g)) by {
        lemma_pair(0, g);
    }
    assert(reacts(b, s2, post) == (0u32, s3));
    lemma_device_step(posted, reply, board(b), post, s2, true, t);

    let posting = |h: Seq<u32>| post_run(phys, 10_000, h);
    assert forall|g: Seq<u32>| #[trigger] posted(g) == posting(cons(0x4000_0000, g)) by {
        lemma_pair(0x4000_0000, g);
    }
    assert(reacts(b, s2, status) == (0x4000_0000u32, s2));
    lemma_device_step(posting, posted, board(b), status, s2, true, t);

}

proof fn lemma_message_is_answered(b: Board, s: Host, phys: u64)
    requires
        sound(b),
        s.reply is None,
        phys == b.supply || phys == b.clock,
    ensures
        ends_with_device(
            |h: Seq<u32>| property_run(phys, h),
            board(b),
            s,
            true,
            told(b, s, phys),
        ),
{
    let t = told(b, s, phys);
    let s2 = prepared(b, s, phys);
    lemma_message_posts(b, s, phys);
    let posting = |h: Seq<u32>| post_run(phys, 10_000, h);
    let ops = seq![
        RegOp::Write((phys + 4) as u64, 0),
        RegOp::Write((phys + 24) as u64, 0),
        RegOp::DataSyncBarrier,
    ];
    lemma_device_batch(board(b), ops, s);
    assert(state_after(board(b), ops, s) == s2) by {
        reveal_with_fuel(state_after, 4);
        assert(ops.drop_first() =~= seq![ops[1], ops[2]]);
        assert(ops.drop_first().drop_first() =~= seq![ops[2]]);
        assert(ops.drop_first().drop_first().drop_first() =~= Seq::empty());
    }
    lemma_then(
        b,
        |h: Seq<u32>| property_run(phys, h),
        |h: Seq<u32>| batch_run::<RegOp, u32>(ops, h),
        |_v: (), h: Seq<u32>| post_run(phys, 10_000, h),
        posting,
        s,
        (),
        s2,
        true,
        t,
    );
}

proof fn lemma_answer_is_read(b: Board, s: Host, phys: u64, offset: u64)
    requires
        sound(b),
        s.reply is None,
        phys == b.supply && offset == 4 || phys == b.clock && offset == 24,
    ensures
        ends_with_device(
            |h: Seq<u32>| property_read_run(phys, offset, h),
            board(b),
            s,
            Some(read(b, told(b, s, phys), (phys + offset) as u64).0),
            told(b, s, phys),
        ),
        phys == b.clock ==> read(b, told(b, s, phys), (phys + offset) as u64).0 == b.hz,
{
    let t = told(b, s, phys);
    lemma_message_is_answered(b, s, phys);
    let op = RegOp::Read((phys + offset) as u64);
    let v = reacts(b, t, op).0;
    assert(reacts(b, t, op).1 == t);
    assert(phys == b.clock ==> v == b.hz);
    let end = |h: Seq<u32>| RegRun::<Option<u32>>::Finished(Some(v), h);
    lemma_device_end(end, board(b), t, Some(v));
    let look = |h: Seq<u32>|
        op_run(op, h).and_then(|v: u32, h: Seq<u32>| RegRun::<Option<u32>>::Finished(Some(v), h));
    assert forall|g: Seq<u32>| #[trigger] end(g) == look(cons(v, g)) by {
        lemma_pair(v, g);
    }
    lemma_device_step(look, end, board(b), op, t, Some(v), t);
    lemma_then(
        b,
        |h: Seq<u32>| property_read_run(phys, offset, h),
        |h: Seq<u32>| property_run(phys, h),
        |came: bool, h: Seq<u32>|
            if came {
                op_run(op, h).and_then(
                    |v: u32, h: Seq<u32>| RegRun::<Option<u32>>::Finished(Some(v), h),
                )
            } else {
                RegRun::<Option<u32>>::Finished(None, h)
            },
        look,
        s,
        true,
        t,
        Some(v),
        t,
    );
}

proof fn lemma_update(b: Board, s: Host, addr: u64, keep: u32, set: u32, pause_ms: int)
    requires
        addr == 0xFE34_0028 || addr == 0xFE34_002C,
        s.settling == 0,
        s.rest == 0,
        write(b, s, addr, read(b, s, addr).0 & keep | set).settling <= pause_ms * 1_500_000,
        write(b, s, addr, read(b, s, addr).0 & keep | set).rest == 0,
        0 <= pause_ms <= 2,
    ensures
        ends_with_device(
            |h: Seq<u32>| update_run(addr, keep, set, pause_ms, h),
            board(b),
            s,
            (),
            (Host { settling: 0, ..write(b, s, addr, read(b, s, addr).0 & keep | set) }),
        ),
{
    let r = read(b, s, addr).0;
    let t = Host { settling: 0, ..write(b, s, addr, r & keep | set) };
    let op = RegOp::Read(addr);
    let w = RegOp::Write(addr, r & keep | set);
    let ops = if pause_ms == 0 {
        seq![w]
    } else {
        seq![w, sleep_op(pause_ms)]
    };
    let next = |h: Seq<u32>| batch_run::<RegOp, u32>(ops, h);
    lemma_device_batch(board(b), ops, s);
    assert(state_after(board(b), ops, s) == t) by {
        reveal_with_fuel(state_after, 3);
        if pause_ms == 0 {
            assert(ops.drop_first() =~= Seq::empty());
        } else {
            assert(ops.drop_first() =~= seq![ops[1]]);
            assert(ops.drop_first().drop_first() =~= Seq::empty());
        }
    }
    lemma_device_op(board(b), op, s);
    lemma_then(
        b,
        |h: Seq<u32>| update_run(addr, keep, set, pause_ms, h),
        |h: Seq<u32>| op_run(op, h),
        |v: u32, h: Seq<u32>|
            batch_run(
                if pause_ms == 0 {
                    seq![RegOp::Write(addr, v & keep | set)]
                } else {
                    seq![RegOp::Write(addr, v & keep | set), sleep_op(pause_ms)]
                },
                h,
            ),
        next,
        s,
        r,
        s,
        (),
        t,
    );
}

/// CONTROL1 as it reads.
pub open spec fn as_read(c: u32) -> u32 {
    if c & 1 == 1 {
        c | 2
    } else {
        c
    }
}

proof fn lemma_clock_bits(c: u32, d: u32)
    requires
        d < 0x400,
        c & 0x0100_0000 == 0,
    ensures
        ({
            let f = ((d % 256) * 256 + (d / 256) * 64) as u32;
            let x1 = (as_read(c) & 0xFFFF_FFFB) | 0;
            let x2 = (as_read(x1) & 0xFFFF_003F) | (f | 1);
            let x3 = (as_read(x2) & 0xFFFF_FFFF) | 4;
            &&& x1 & 0x0100_0000 == 0
            &&& x2 & 0x0100_0000 == 0
            &&& as_read(x2) & 2 != 0
            &&& x3 & 0x0100_0000 == 0
            &&& x3 & 5 == 5
            &&& divisor(x3) == d
        }),
{
    let f = ((d % 256) * 256 + (d / 256) * 64) as u32;
    let g = ((d & 0xFF) << 8) | ((d >> 8) << 6);
    assert(g == (d % 256) * 256 + (d / 256) * 64) by (bit_vector)
        requires
            d < 0x400,
            g == ((d & 0xFF) << 8) | ((d >> 8) << 6),
    ;
    let r1 = as_read(c);
    let x1 = (r1 & 0xFFFF_FFFB) | 0;
    let r2 = as_read(x1);
    let x2 = (r2 & 0xFFFF_003F) | (g | 1);
    let r3 = as_read(x2);
    let x3 = (r3 & 0xFFFF_FFFF) | 4;
    assert(x1 & 0x0100_0000 == 0 && x2 & 0x0100_0000 == 0 && x2 & 1 == 1) by (bit_vector)
        requires
            d < 0x400,
            c & 0x0100_0000 == 0,
            g == ((d & 0xFF) << 8) | ((d >> 8) << 6),
            r1 == c || r1 == c | 2,
            x1 == (r1 & 0xFFFF_FFFB) | 0,
            r2 == x1 || r2 == x1 | 2,
            x2 == (r2 & 0xFFFF_003F) | (g | 1),
    ;
    assert(x3 & 0x0100_0000 == 0 && x3 & 5 == 5 && ((x3 >> 8) & 0xFF) | (((x3 >> 6) & 3) << 8) == d
        && r3 & 2 != 0) by (bit_vector)
        requires
            d < 0x400,
            g == ((d & 0xFF) << 8) | ((d >> 8) << 6),
            x2 == (r2 & 0xFFFF_003F) | (g | 1),
            x2 & 0x0100_0000 == 0,
            r3 == x2 | 2,
            x3 == (r3 & 0xFFFF_FFFF) | 4,
    ;
}

proof fn lemma_control1(b: Board, s: Host, keep: u32, set: u32)
    requires
        s.settling == 0,
        s.rest == 0,
        (as_read(s.control1) & keep | set) & 0x0100_0000 == 0,
    ensures
        ends_with_device(
            |h: Seq<u32>| update_run(0xFE34_002C, keep, set, 2, h),
            board(b),
            s,
            (),
            (Host { control1: as_read(s.control1) & keep | set, ..s }),
        ),
{
    lemma_update(b, s, 0xFE34_002C, keep, set, 2);
}

proof fn lemma_clock_starts(b: Board, s: Host)
    requires
        s.settling == 0,
        s.rest == 0,
        as_read(s.control1) & 2 != 0,
        (as_read(s.control1) & 0xFFFF_FFFF | 4) & 0x0100_0000 == 0,
    ensures
        ends_with_device(
            |h: Seq<u32>| start_clock_run(h),
            board(b),
            s,
            (),
            (Host { control1: as_read(s.control1) & 0xFFFF_FFFF | 4, ..s }),
        ),
{
    let n = 15_000_000nat;
    let a = 0xFE34_002Cu64;
    lemma_poll_at_once(b, s, a, 2, true, n);
    lemma_control1(b, s, 0xFFFF_FFFF, 4);
    lemma_then(
        b,
        |h: Seq<u32>| start_clock_run(h),
        |h: Seq<u32>| poll_run(a, 2, true, n, h),
        |_stable: bool, h: Seq<u32>| update_run(a, 0xFFFF_FFFF, 4, 2, h),
        |h: Seq<u32>| update_run(a, 0xFFFF_FFFF, 4, 2, h),
        s,
        true,
        s,
        (),
        Host { control1: as_read(s.control1) & 0xFFFF_FFFF | 4, ..s },
    );
}

proof fn lemma_clock_is_programmed(b: Board, s: Host, target: u32, f: u32, t: Host)
    requires
        s.settling == 0,
        s.rest == 0,
        f == divisor_field(clock_divisor(b.hz as int, target as int)) as u32,
        ({
            let x2 = (as_read(s.control1) & 0xFFFF_003F) | (f | 1);
            let x3 = as_read(x2) & 0xFFFF_FFFF | 4;
            &&& x2 & 0x0100_0000 == 0
            &&& x3 & 0x0100_0000 == 0
            &&& as_read(x2) & 2 != 0
            &&& t == Host { control1: x3, ..s }
        }),
    ensures
        ends_with_device(
            |h: Seq<u32>| program_divisor_run(b.hz, target, h),
            board(b),
            s,
            (),
            t,
        ),
{
    let a = 0xFE34_002Cu64;
    let s2 = Host { control1: (as_read(s.control1) & 0xFFFF_003F) | (f | 1), ..s };
    lemma_control1(b, s, 0xFFFF_003F, f | 1);
    lemma_clock_starts(b, s2);
    lemma_then(
        b,
        |h: Seq<u32>| program_divisor_run(b.hz, target, h),
        |h: Seq<u32>| update_run(a, 0xFFFF_003F, f | 1, 2, h),
        |_v: (), h: Seq<u32>| start_clock_run(h),
        |h: Seq<u32>| start_clock_run(h),
        s,
        (),
        s2,
        (),
        t,
    );
}

proof fn lemma_clock_is_changed(b: Board, s: Host, target: u32, t: Host)
    requires
        s.settling == 0,
        s.rest == 0,
        ({
            let x1 = (as_read(s.control1) & 0xFFFF_FFFB) | 0;
            &&& x1 & 0x0100_0000 == 0
            &&& ends_with_device(
                |h: Seq<u32>| program_divisor_run(b.hz, target, h),
                board(b),
                Host { control1: x1, ..s },
                (),
                t,
            )
        }),
    ensures
        ends_with_device(|h: Seq<u32>| set_clock_run(b.hz, target, h), board(b), s, (), t),
{
    let a = 0xFE34_002Cu64;
    let n = 15_000_000nat;
    let s1 = Host { control1: (as_read(s.control1) & 0xFFFF_FFFB) | 0, ..s };
    let k = |_v: (), h: Seq<u32>| program_divisor_run(b.hz, target, h);
    let stop = |h: Seq<u32>| update_run(a, 0xFFFF_FFFB, 0, 2, h).and_then(k);
    lemma_control1(b, s, 0xFFFF_FFFB, 0);
    lemma_then(
        b,
        stop,
        |h: Seq<u32>| update_run(a, 0xFFFF_FFFB, 0, 2, h),
        k,
        |h: Seq<u32>| program_divisor_run(b.hz, target, h),
        s,
        (),
        s1,
        (),
        t,
    );
    lemma_masks();
    lemma_poll_at_once(b, s, 0xFE34_0024, 3, false, n);
    lemma_then(
        b,
        |h: Seq<u32>| set_clock_run(b.hz, target, h),
        |h: Seq<u32>| poll_run(0xFE34_0024, 3, false, n, h),
        |_idle: bool, h: Seq<u32>| update_run(a, 0xFFFF_FFFB, 0, 2, h).and_then(k),
        stop,
        s,
        true,
        s,
        (),
        t,
    );
}

proof fn lemma_clock_is_set(b: Board, s: Host, target: u32) -> (c: u32)
    requires
        sound(b),
        s.settling == 0,
        s.rest == 0,
        target == 400_000 || target == 25_000_000,
        s.control1 & 0x0100_0000 == 0,
    ensures
        ends_with_device(
            |h: Seq<u32>| set_clock_run(b.hz, target, h),
            board(b),
            s,
            (),
            (Host { control1: c, ..s }),
        ),
        clocked(b, (Host { control1: c, ..s }), target as int),
        c & 0x0100_0000 == 0,
{
    let d = clock_divisor(b.hz as int, target as int);
    if target < b.hz {
        lemma_divided_clock_is_closest(b.hz as int, target as int);
        assert(d > 0) by (nonlinear_arith)
            requires
                b.hz <= 2 * d * target,
                b.hz > 0,
                target > 0,
        ;
    }
    let f = divisor_field(d) as u32;
    lemma_clock_bits(s.control1, d as u32);
    let x1 = (as_read(s.control1) & 0xFFFF_FFFB) | 0;
    let x2 = (as_read(x1) & 0xFFFF_003F) | (f | 1);
    let x3 = (as_read(x2) & 0xFFFF_FFFF) | 4;
    let s1 = Host { control1: x1, ..s };
    let s3 = Host { control1: x3, ..s };
    lemma_clock_is_programmed(b, s1, target, f, s3);
    lemma_clock_is_changed(b, s, target, s3);
    x3
}

// ── Initialisation: the card ───────────────────────────────────────────────

/// What the driver knows of the board's card when it is ready for use.
pub open spec fn known(b: Board) -> SdCard {
    SdCard { rca: b.address, hccs: b.high_capacity }
}

proof fn lemma_address_bits(a: u32)
    requires
        a < 0xFFFF,
    ensures
        a << 16 == a * 0x1_0000,
        ((a * 0x1_0000 + 0x500) as u32) >> 16 == a,
        0u32 << 16 == 0,
        0x00FF_8000u32 & 0x8000_0000 == 0,
        0x80FF_8000u32 & 0x8000_0000 != 0,
        0x80FF_8000u32 & 0x4000_0000 == 0,
        0xC0FF_8000u32 & 0x8000_0000 != 0,
        0xC0FF_8000u32 & 0x4000_0000 != 0,
{
    let x = (a * 0x1_0000 + 0x500) as u32;
    assert(a << 16 == a * 0x1_0000 && x >> 16 == a && 0u32 << 16 == 0 && 0x00FF_8000u32
        & 0x8000_0000 == 0 && 0x80FF_8000u32 & 0x8000_0000 != 0 && 0x80FF_8000u32 & 0x4000_0000 == 0
        && 0xC0FF_8000u32 & 0x8000_0000 != 0 && 0xC0FF_8000u32 & 0x4000_0000 != 0) by (bit_vector)
        requires
            a < 0xFFFF,
            x == a * 0x1_0000 + 0x500,
    ;
}

proof fn lemma_length_is_set(b: Board, s: Host) -> (t: Host)
    requires
        sound(b),
        b.present,
        hears(b, s),
        s.state is Transfer,
    ensures
        ends_with_device(
            |h: Seq<u32>| init_block_len_run(known(b), h),
            board(b),
            s,
            (true, known(b)),
            t,
        ),
        can_read(b, t),
{
    lemma_commands();
    let t = settled(command(b, asked(s, 512), 0x100A_0000));
    lemma_issue(b, s, 0x100A_0000, 512);
    let v = (true, known(b));
    let sent = |h: Seq<u32>| send_cmd_run(b.address, 0x100A_0000, 512, h);
    assert(sent =~= (|h: Seq<u32>| issue_run(0x100A_0000, 512, h)));
    let end = |h: Seq<u32>| RegRun::<(bool, SdCard)>::Finished(v, h);
    lemma_device_end(end, board(b), t, v);
    lemma_then(
        b,
        |h: Seq<u32>| init_block_len_run(known(b), h),
        sent,
        |r16: u32, h: Seq<u32>|
            RegRun::<(bool, SdCard)>::Finished((r16 & 0xFFFF_0000 == 0, known(b)), h),
        end,
        s,
        0x900,
        t,
        v,
        t,
    );
    t
}

proof fn lemma_card_is_selected(b: Board, s: Host) -> (t: Host)
    requires
        sound(b),
        b.present,
        hears(b, s),
        s.state is Standby,
    ensures
        ends_with_device(
            |h: Seq<u32>| init_select_run(known(b), h),
            board(b),
            s,
            (true, known(b)),
            t,
        ),
        can_read(b, t),
{
    lemma_commands();
    lemma_address_bits(b.address);
    let arg = b.address << 16;
    let s1 = settled(command(b, asked(s, arg), 0x070B_0000));
    assert(hears(b, s1) && s1.state is Transfer);
    lemma_issue(b, s, 0x070B_0000, arg);
    let v = (true, known(b));
    let card = known(b);
    let sent = |h: Seq<u32>| send_cmd_run(b.address, 0x070B_0000, arg, h);
    assert(sent =~= (|h: Seq<u32>| issue_run(0x070B_0000, arg, h)));
    let whole = |h: Seq<u32>| init_select_run(card, h);
    let k = |r7: u32, h: Seq<u32>|
        if r7 == 0xFFFF_FFFF {
            RegRun::<(bool, SdCard)>::Finished((false, card), h)
        } else if card.hccs {
            RegRun::<(bool, SdCard)>::Finished((true, card), h)
        } else {
            init_block_len_run(card, h)
        };
    if b.high_capacity {
        let end = |h: Seq<u32>| RegRun::<(bool, SdCard)>::Finished(v, h);
        lemma_device_end(end, board(b), s1, v);
        lemma_then(b, whole, sent, k, end, s, 0x700, s1, v, s1);
        s1
    } else {
        let t = lemma_length_is_set(b, s1);
        lemma_then(
            b,
            whole,
            sent,
            k,
            |h: Seq<u32>| init_block_len_run(card, h),
            s,
            0x700,
            s1,
            v,
            t,
        );
        t
    }
}

proof fn lemma_card_goes_fast(b: Board, s: Host) -> (t: Host)
    requires
        sound(b),
        b.present,
        hears(b, s),
        s.state is Standby,
        s.control1 & 0x0100_0000 == 0,
    ensures
        ends_with_device(
            |h: Seq<u32>| init_transfer_run(known(b), b.hz, h),
            board(b),
            s,
            (true, known(b)),
            t,
        ),
        can_read(b, t),
{
    let c = lemma_clock_is_set(b, s, 25_000_000);
    let s1 = Host { control1: c, ..s };
    assert(hears(b, s1));
    let t = lemma_card_is_selected(b, s1);
    lemma_then(
        b,
        |h: Seq<u32>| init_transfer_run(known(b), b.hz, h),
        |h: Seq<u32>| set_clock_run(b.hz, 25_000_000, h),
        |_v: (), h: Seq<u32>| init_select_run(known(b), h),
        |h: Seq<u32>| init_select_run(known(b), h),
        s,
        (),
        s1,
        (true, known(b)),
        t,
    );
    t
}

/// The driver knows whether the card counts in blocks, and has no address of it.
pub open spec fn unaddressed(b: Board) -> SdCard {
    SdCard { rca: 0, hccs: b.high_capacity }
}

proof fn lemma_card_is_addressed(b: Board, s: Host) -> (t: Host)
    requires
        sound(b),
        b.present,
        hears(b, s),
        s.state is Identification,
        s.control1 & 0x0100_0000 == 0,
    ensures
        ends_with_device(
            |h: Seq<u32>| init_address_run(unaddressed(b), b.hz, h),
            board(b),
            s,
            (true, known(b)),
            t,
        ),
        can_read(b, t),
{
    lemma_commands();
    lemma_address_bits(b.address);
    let card = unaddressed(b);
    let r3 = (b.address * 0x1_0000 + 0x500) as u32;
    let s1 = settled(command(b, asked(s, 0), 0x031A_0000));
    assert(s1.state is Standby);
    assert(hears(b, s1)) by (nonlinear_arith)
        requires
            hears(b, s),
            s.state is Identification,
            s1.state is Standby,
            s1.supplied == s.supplied,
            s1.control0 == s.control0,
            s1.control1 == s.control1,
            s1.enabled == s.enabled,
            s1.settling == s.settling,
            s1.hurried == s.hurried,
            s1.rest == s.rest,
    ;
    lemma_issue(b, s, 0x031A_0000, 0);
    let sent = |h: Seq<u32>| send_cmd_run(0, 0x031A_0000, 0, h);
    assert(sent =~= (|h: Seq<u32>| issue_run(0x031A_0000, 0, h)));
    let t = lemma_card_goes_fast(b, s1);
    lemma_then(
        b,
        |h: Seq<u32>| init_address_run(card, b.hz, h),
        sent,
        |r3: u32, h: Seq<u32>|
            if r3 == 0xFFFF_FFFF {
                RegRun::<(bool, SdCard)>::Finished((false, card), h)
            } else {
                init_transfer_run(SdCard { rca: r3 >> 16, hccs: card.hccs }, b.hz, h)
            },
        |h: Seq<u32>| init_transfer_run(known(b), b.hz, h),
        s,
        r3,
        s1,
        (true, known(b)),
        t,
    );
    t
}

proof fn lemma_card_is_identified(b: Board, s: Host) -> (t: Host)
    requires
        sound(b),
        b.present,
        hears(b, s),
        s.state is Ready,
        s.control1 & 0x0100_0000 == 0,
    ensures
        ends_with_device(
            |h: Seq<u32>| init_cid_run(unaddressed(b), b.hz, h),
            board(b),
            s,
            (true, known(b)),
            t,
        ),
        can_read(b, t),
{
    lemma_commands();
    let card = unaddressed(b);
    let s1 = settled(command(b, asked(s, 0), 0x0209_0000));
    assert(s1.state is Identification && hears(b, s1));
    lemma_issue(b, s, 0x0209_0000, 0);
    let sent = |h: Seq<u32>| send_cmd_run(0, 0x0209_0000, 0, h);
    assert(sent =~= (|h: Seq<u32>| issue_run(0x0209_0000, 0, h)));
    let t = lemma_card_is_addressed(b, s1);
    lemma_then(
        b,
        |h: Seq<u32>| init_cid_run(card, b.hz, h),
        sent,
        |r2: u32, h: Seq<u32>|
            if r2 == 0xFFFF_FFFF {
                RegRun::<(bool, SdCard)>::Finished((false, card), h)
            } else {
                init_address_run(card, b.hz, h)
            },
        |h: Seq<u32>| init_address_run(card, b.hz, h),
        s,
        b.identification,
        s1,
        (true, known(b)),
        t,
    );
    t
}

/// Asking once whether the card is ready: an application command, with the prefix
/// that makes it one.
proof fn lemma_ready_is_asked(b: Board, s: Host, arg: u32) -> (t: Host)
    requires
        sound(b),
        b.present,
        hears(b, s),
        s.state is Idle,
        arg == (if b.version2 {
            0x51FF_8000u32
        } else {
            0x00FF_8000u32
        }),
    ensures
        ends_with_device(
            |h: Seq<u32>| send_cmd_run(0, 0xA902_0000, arg, h),
            board(b),
            s,
            t.resp,
            t,
        ),
        hears(b, (Host { rest: 0, ..t })),
        t.rest <= 7_500_000,
        t.control1 == s.control1,
        s.asked < b.busy ==> {
            &&& t.resp == 0x00FF_8000
            &&& t.state is Idle
            &&& t.asked == s.asked + 1
        },
        s.asked >= b.busy ==> {
            &&& t.resp == (if b.high_capacity {
                0xC0FF_8000u32
            } else {
                0x80FF_8000u32
            })
            &&& t.state is Ready
            &&& t.rest == 0
        },
{
    lemma_commands();
    lemma_address_bits(b.address);
    let s1 = settled(command(b, asked(s, 0), 0x3702_0000));
    assert(s1.app && s1.state is Idle && hears(b, s1) && s1.asked == s.asked && s1.resp == 0x120);
    lemma_issue(b, s, 0x3702_0000, 0);
    let t = settled(command(b, asked(s1, arg), 0x2902_0000));
    lemma_issue(b, s1, 0xA902_0000, arg);
    lemma_then(
        b,
        |h: Seq<u32>| send_cmd_run(0, 0xA902_0000, arg, h),
        |h: Seq<u32>| issue_run(0x3702_0000, 0, h),
        |prefix: u32, h: Seq<u32>|
            if prefix == 0xFFFF_FFFF {
                RegRun::<u32>::Finished(0xFFFF_FFFF, h)
            } else {
                issue_run(0xA902_0000, arg, h)
            },
        |h: Seq<u32>| issue_run(0xA902_0000, arg, h),
        s,
        0x120,
        s1,
        t.resp,
        t,
    );
    t
}

proof fn lemma_card_gets_ready(b: Board, s: Host, card: SdCard, arg: u32, tries: nat) -> (t: Host)
    requires
        sound(b),
        b.present,
        hears(b, s),
        s.state is Idle,
        s.control1 & 0x0100_0000 == 0,
        s.asked <= b.busy,
        b.busy - s.asked < tries,
        card.rca == 0,
        arg == (if b.version2 {
            0x51FF_8000u32
        } else {
            0x00FF_8000u32
        }),
    ensures
        ends_with_device(
            |h: Seq<u32>| init_op_cond_run(card, b.hz, arg, tries, h),
            board(b),
            s,
            (true, known(b)),
            t,
        ),
        can_read(b, t),
    decreases tries,
{
    lemma_address_bits(b.address);
    let s1 = lemma_ready_is_asked(b, s, arg);
    let v = (true, known(b));
    let whole = |h: Seq<u32>| init_op_cond_run(card, b.hz, arg, tries, h);
    let first = |h: Seq<u32>| send_cmd_run(0, 0xA902_0000, arg, h);
    let m = (tries - 1) as nat;
    let pause = sleep_op(5);
    let k2 = |_v: u32, h: Seq<u32>| init_op_cond_run(card, b.hz, arg, m, h);
    let k = |resp: u32, h: Seq<u32>|
        if resp == 0xFFFF_FFFF {
            RegRun::<(bool, SdCard)>::Finished((false, card), h)
        } else if resp & 0x8000_0000 != 0 {
            init_cid_run(SdCard { rca: card.rca, hccs: resp & 0x4000_0000 != 0 }, b.hz, h)
        } else {
            op_run(pause, h).and_then(k2)
        };
    if s.asked < b.busy {
        let s2 = paused(s1, 7_500_000);
        assert(s2 == Host { rest: 0, ..s1 });
        let t = lemma_card_gets_ready(b, s2, card, arg, m);
        let again = |h: Seq<u32>| init_op_cond_run(card, b.hz, arg, m, h);
        let next = |h: Seq<u32>| op_run(pause, h).and_then(k2);
        lemma_device_op(board(b), pause, s1);
        lemma_then(b, next, |h: Seq<u32>| op_run(pause, h), k2, again, s1, 0, s2, v, t);
        lemma_then(b, whole, first, k, next, s, s1.resp, s1, v, t);
        t
    } else {
        let t = lemma_card_is_identified(b, s1);
        lemma_then(
            b,
            whole,
            first,
            k,
            |h: Seq<u32>| init_cid_run(unaddressed(b), b.hz, h),
            s,
            s1.resp,
            s1,
            v,
            t,
        );
        t
    }
}

/// How the initialisation ends: with a card, the driver knows it.
pub open spec fn outcome(b: Board, card: SdCard) -> (bool, SdCard) {
    if b.present {
        (true, known(b))
    } else {
        (false, card)
    }
}

proof fn lemma_card_is_asked(b: Board, s: Host, card: SdCard) -> (t: Host)
    requires
        sound(b),
        hears(b, s),
        s.state is Idle,
        s.asked == 0,
        s.control1 & 0x0100_0000 == 0,
        card.rca == 0,
    ensures
        ends_with_device(
            |h: Seq<u32>| init_if_cond_run(card, b.hz, h),
            board(b),
            s,
            outcome(b, card),
            t,
        ),
        b.present ==> can_read(b, t),
{
    lemma_commands();
    let s2 = command(b, asked(s, 0x1AA), 0x081A_0000);
    let s1 = settled(s2);
    let r8: u32 = if b.present && b.version2 {
        0x1AA
    } else {
        0xFFFF_FFFF
    };
    assert(s1.state is Idle && s1.asked == 0 && hears(b, s1));
    lemma_issue(b, s, 0x081A_0000, 0x1AA);
    let sent = |h: Seq<u32>| send_cmd_run(0, 0x081A_0000, 0x1AA, h);
    assert(sent =~= (|h: Seq<u32>| issue_run(0x081A_0000, 0x1AA, h)));
    let arg = op_cond_arg(r8);
    let t = if b.present {
        lemma_card_gets_ready(b, s1, card, arg, 50)
    } else {
        lemma_nobody_is_ready(b, s1, card, arg)
    };
    lemma_then(
        b,
        |h: Seq<u32>| init_if_cond_run(card, b.hz, h),
        sent,
        |r8: u32, h: Seq<u32>| init_op_cond_run(card, b.hz, op_cond_arg(r8), 50, h),
        |h: Seq<u32>| init_op_cond_run(card, b.hz, arg, 50, h),
        s,
        r8,
        s1,
        outcome(b, card),
        t,
    );
    t
}

/// Without a card there is no answer to the question whether it is ready.
proof fn lemma_nobody_is_ready(b: Board, s: Host, card: SdCard, arg: u32) -> (t: Host)
    requires
        sound(b),
        hears(b, s),
        !b.present,
        card.rca == 0,
    ensures
        ends_with_device(
            |h: Seq<u32>| init_op_cond_run(card, b.hz, arg, 50, h),
            board(b),
            s,
            (false, card),
            t,
        ),
{
    lemma_commands();
    lemma_address_bits(b.address);
    let t = settled(command(b, asked(s, 0), 0x3702_0000));
    lemma_issue(b, s, 0x3702_0000, 0);
    let failed = |h: Seq<u32>| RegRun::<u32>::Finished(0xFFFF_FFFF, h);
    lemma_device_end(failed, board(b), t, 0xFFFF_FFFFu32);
    let sent = |h: Seq<u32>| send_cmd_run(0, 0xA902_0000, arg, h);
    lemma_then(
        b,
        sent,
        |h: Seq<u32>| issue_run(0x3702_0000, 0, h),
        |prefix: u32, h: Seq<u32>|
            if prefix == 0xFFFF_FFFF {
                RegRun::<u32>::Finished(0xFFFF_FFFF, h)
            } else {
                issue_run(0xA902_0000, arg, h)
            },
        failed,
        s,
        0xFFFF_FFFF,
        t,
        0xFFFF_FFFF,
        t,
    );
    let end = |h: Seq<u32>| RegRun::<(bool, SdCard)>::Finished((false, card), h);
    lemma_device_end(end, board(b), t, (false, card));
    let k2 = |_v: u32, h: Seq<u32>| init_op_cond_run(card, b.hz, arg, 49, h);
    lemma_then(
        b,
        |h: Seq<u32>| init_op_cond_run(card, b.hz, arg, 50, h),
        sent,
        |resp: u32, h: Seq<u32>|
            if resp == 0xFFFF_FFFF {
                RegRun::<(bool, SdCard)>::Finished((false, card), h)
            } else if resp & 0x8000_0000 != 0 {
                init_cid_run(SdCard { rca: card.rca, hccs: resp & 0x4000_0000 != 0 }, b.hz, h)
            } else {
                op_run(sleep_op(5), h).and_then(k2)
            },
        end,
        s,
        0xFFFF_FFFF,
        t,
        (false, card),
        t,
    );
    t
}

/// The card is sent to its idle state, and gets the time for it.
proof fn lemma_card_is_idle(b: Board, s: Host, card: SdCard) -> (t: Host)
    requires
        sound(b),
        hears(b, s),
        clocked(b, s, 400_000),
        s.control1 & 0x0100_0000 == 0,
        card.rca == 0,
    ensures
        ends_with_device(
            |h: Seq<u32>|
                send_cmd_run(0, 0, 0, h).and_then(
                    |_r: u32, h: Seq<u32>|
                        op_run(sleep_op(2), h).and_then(
                            |_v: u32, h: Seq<u32>| init_if_cond_run(card, b.hz, h),
                        ),
                ),
            board(b),
            s,
            outcome(b, card),
            t,
        ),
        b.present ==> can_read(b, t),
{
    lemma_commands();
    let v = outcome(b, card);
    let s2 = settled(command(b, asked(s, 0), 0));
    assert(s2.state is Idle && s2.asked == 0 && s2.rest <= 3_000_000 && s2.settling == 0
        && !s2.hurried);
    let s3 = paused(s2, 3_000_000);
    assert(s3.rest == 0 && s3.settling == 0);
    assert(hears(b, s3));
    let t = lemma_card_is_asked(b, s3, card);
    let pause = sleep_op(2);
    let k3 = |_v: u32, h: Seq<u32>| init_if_cond_run(card, b.hz, h);
    let rest = |h: Seq<u32>| op_run(pause, h).and_then(k3);
    lemma_device_op(board(b), pause, s2);
    lemma_then(
        b,
        rest,
        |h: Seq<u32>| op_run(pause, h),
        k3,
        |h: Seq<u32>| init_if_cond_run(card, b.hz, h),
        s2,
        0,
        s3,
        v,
        t,
    );
    let sent = |h: Seq<u32>| send_cmd_run(0, 0, 0, h);
    assert(sent =~= (|h: Seq<u32>| issue_run(0, 0, h)));
    lemma_issue(b, s, 0, 0);
    let k2 = |_r: u32, h: Seq<u32>| op_run(pause, h).and_then(k3);
    let reset = |h: Seq<u32>|
        send_cmd_run(0, 0, 0, h).and_then(
            |_r: u32, h: Seq<u32>|
                op_run(sleep_op(2), h).and_then(
                    |_v: u32, h: Seq<u32>| init_if_cond_run(card, b.hz, h),
                ),
        );
    lemma_then(b, reset, sent, k2, rest, s, s2.resp, s2, v, t);
    t
}

proof fn lemma_card_is_woken(b: Board, s: Host, card: SdCard) -> (t: Host)
    requires
        sound(b),
        s.settling == 0,
        s.rest == 0,
        !s.hurried,
        s.supplied,
        s.control0 & 0xF00 == 0xF00,
        clocked(b, s, 400_000),
        s.control1 & 0x0100_0000 == 0,
        card.rca == 0,
    ensures
        ends_with_device(
            |h: Seq<u32>| init_idle_run(card, b.hz, h),
            board(b),
            s,
            outcome(b, card),
            t,
        ),
        b.present ==> can_read(b, t),
{
    let v = outcome(b, card);
    let s1 = Host { enabled: true, ..s };
    assert(hears(b, s1)) by {
        assert(clocked(b, s1, 400_000));
        if s1.state is Standby || s1.state is Transfer {
            assert(clocked(b, s1, 25_000_000)) by (nonlinear_arith)
                requires
                    clocked(b, s1, 400_000),
            ;
        }
    }
    let t = lemma_card_is_idle(b, s1, card);
    let ops = enable_interrupts_ops();
    lemma_device_batch(board(b), ops, s);
    assert(state_after(board(b), ops, s) == s1) by {
        reveal_with_fuel(state_after, 3);
        assert(ops.drop_first() =~= seq![ops[1]]);
        assert(ops.drop_first().drop_first() =~= Seq::empty());
    }
    let k2 = |_r: u32, h: Seq<u32>|
        op_run(sleep_op(2), h).and_then(
            |_v: u32, h: Seq<u32>| init_if_cond_run(card, b.hz, h),
        );
    lemma_then(
        b,
        |h: Seq<u32>| init_idle_run(card, b.hz, h),
        |h: Seq<u32>| batch_run::<RegOp, u32>(ops, h),
        |_v: (), h: Seq<u32>| send_cmd_run(0, 0, 0, h).and_then(k2),
        |h: Seq<u32>|
            send_cmd_run(0, 0, 0, h).and_then(
                |_r: u32, h: Seq<u32>|
                    op_run(sleep_op(2), h).and_then(
                        |_v: u32, h: Seq<u32>| init_if_cond_run(card, b.hz, h),
                    ),
            ),
        s,
        (),
        s1,
        v,
        t,
    );
    t
}

proof fn lemma_power_bits()
    ensures
        (0u32 & 0xFFFF_FFFF | 0xF00) & 0xF00 == 0xF00,
        (0u32 & 0xFFFF_FFFF | 0x000B_0000) & 0x0100_0000 == 0,
        0u32 & 0x0100_0000 == 0,
        0x0100_0000u32 & 0x0100_0000 != 0,
        0u32 & 1 == 0,
        0u32 & 0xFFFF_FFFF | 0x000B_0000 == 0x000B_0000,
        0u32 & 0xF00 == 0,
{
    assert((0u32 & 0xFFFF_FFFF | 0xF00) & 0xF00 == 0xF00 && (0u32 & 0xFFFF_FFFF | 0x000B_0000)
        & 0x0100_0000 == 0 && 0u32 & 0x0100_0000 == 0 && 0x0100_0000u32 & 0x0100_0000 != 0 && 0u32
        & 1 == 0 && 0u32 & 0xFFFF_FFFF | 0x000B_0000 == 0x000B_0000 && 0u32 & 0xF00 == 0) by (bit_vector);
}

proof fn lemma_bus_is_powered(b: Board, s: Host, card: SdCard) -> (t: Host)
    requires
        sound(b),
        s.settling == 0,
        s.rest == 0,
        !s.hurried,
        s.supplied,
        s.control0 == 0,
        s.control1 == 0,
        card.rca == 0,
    ensures
        ends_with_device(
            |h: Seq<u32>| init_power_run(card, b.hz, h),
            board(b),
            s,
            outcome(b, card),
            t,
        ),
        b.present ==> can_read(b, t),
{
    lemma_power_bits();
    let v = outcome(b, card);
    let s1 = Host { control0: 0u32 & 0xFFFF_FFFF | 0xF00, ..s };
    let s2 = Host { control1: 0u32 & 0xFFFF_FFFF | 0x000B_0000, ..s1 };
    let c = lemma_clock_is_set(b, s2, 400_000);
    let s3 = Host { control1: c, ..s2 };
    let t = lemma_card_is_woken(b, s3, card);
    let k3 = |_v: (), h: Seq<u32>| init_idle_run(card, b.hz, h);
    let clock = |h: Seq<u32>| set_clock_run(b.hz, 400_000, h).and_then(k3);
    lemma_then(
        b,
        clock,
        |h: Seq<u32>| set_clock_run(b.hz, 400_000, h),
        k3,
        |h: Seq<u32>| init_idle_run(card, b.hz, h),
        s2,
        (),
        s3,
        v,
        t,
    );
    let k2 = |_v: (), h: Seq<u32>| set_clock_run(b.hz, 400_000, h).and_then(k3);
    let unit = |h: Seq<u32>|
        update_run(0xFE34_002C, 0xFFFF_FFFF, 0x000B_0000, 0, h).and_then(k2);
    lemma_update(b, s1, 0xFE34_002C, 0xFFFF_FFFF, 0x000B_0000, 0);
    lemma_then(
        b,
        unit,
        |h: Seq<u32>| update_run(0xFE34_002C, 0xFFFF_FFFF, 0x000B_0000, 0, h),
        k2,
        clock,
        s1,
        (),
        s2,
        v,
        t,
    );
    lemma_update(b, s, 0xFE34_0028, 0xFFFF_FFFF, 0xF00, 2);
    lemma_then(
        b,
        |h: Seq<u32>| init_power_run(card, b.hz, h),
        |h: Seq<u32>| update_run(0xFE34_0028, 0xFFFF_FFFF, 0xF00, 2, h),
        |_v: (), h: Seq<u32>|
            update_run(0xFE34_002C, 0xFFFF_FFFF, 0x000B_0000, 0, h).and_then(k2),
        unit,
        s,
        (),
        s1,
        v,
        t,
    );
    t
}

/// The state after a reset, and the time for it.
pub open spec fn reset_state(s: Host) -> Host {
    Host {
        control0: 0,
        control1: 0,
        enabled: false,
        done: false,
        ready: false,
        complete: false,
        error: false,
        wait: 0,
        data_wait: 0,
        settling: 0,
        hurried: false,
        rest: 0,
        ..s
    }
}

proof fn lemma_reset_ops(b: Board, s: Host)
    requires
        sound(b),
        s.settling == 0,
    ensures
        ends_with_device(
            |h: Seq<u32>| batch_run::<RegOp, u32>(reset_ops(), h),
            board(b),
            s,
            (),
            reset_state(s),
        ),
{
    lemma_power_bits();
    let ops = reset_ops();
    let d = board(b);
    let s1 = d(s, ops[0]).1;
    assert(s1 == s);
    let s2 = d(s1, ops[1]).1;
    assert(s2 == Host { control0: 0, ..s });
    let s3 = d(s2, ops[2]).1;
    assert(s3 == Host { settling: 15_000_000, ..reset_state(s) });
    let s4 = d(s3, ops[3]).1;
    assert(s4 == reset_state(s));
    let ops1 = ops.drop_first();
    let ops2 = ops1.drop_first();
    let ops3 = ops2.drop_first();
    assert(ops1[0] == ops[1] && ops2[0] == ops[2] && ops3[0] == ops[3] && ops3.len() == 1);
    assert(ops3.drop_first() =~= Seq::empty());
    assert(state_after(d, ops3.drop_first(), s4) == s4);
    assert(state_after(d, ops3, s3) == s4);
    assert(state_after(d, ops2, s2) == s4);
    assert(state_after(d, ops1, s1) == s4);
    assert(state_after(d, ops, s) == s4);
    lemma_device_batch(d, ops, s);
}

proof fn lemma_controller_is_reset(b: Board, s: Host, card: SdCard) -> (t: Host)
    requires
        sound(b),
        s.settling == 0,
        s.supplied,
        card.rca == 0,
    ensures
        ends_with_device(
            |h: Seq<u32>| init_reset_run(card, b.hz, h),
            board(b),
            s,
            outcome(b, card),
            t,
        ),
        b.present ==> can_read(b, t),
{
    lemma_power_bits();
    let v = outcome(b, card);
    let ops = reset_ops();
    let n = 150_000_000nat;
    lemma_reset_ops(b, s);
    let s1 = reset_state(s);
    let t = lemma_bus_is_powered(b, s1, card);
    lemma_poll_at_once(b, s1, 0xFE34_002C, 0x0100_0000, false, n);
    let k2 = |ok: bool, h: Seq<u32>|
        if ok {
            init_power_run(card, b.hz, h)
        } else {
            RegRun::<(bool, SdCard)>::Finished((false, card), h)
        };
    let poll = |h: Seq<u32>|
        poll_run(0xFE34_002C, 0x0100_0000, false, n, h).and_then(k2);
    lemma_then(
        b,
        poll,
        |h: Seq<u32>| poll_run(0xFE34_002C, 0x0100_0000, false, n, h),
        k2,
        |h: Seq<u32>| init_power_run(card, b.hz, h),
        s1,
        true,
        s1,
        v,
        t,
    );
    lemma_then(
        b,
        |h: Seq<u32>| init_reset_run(card, b.hz, h),
        |h: Seq<u32>| batch_run::<RegOp, u32>(ops, h),
        |_v: (), h: Seq<u32>|
            poll_run(0xFE34_002C, 0x0100_0000, false, n, h).and_then(k2),
        poll,
        s,
        (),
        s1,
        v,
        t,
    );
    t
}

proof fn lemma_rate_is_asked(b: Board, s: Host, card: SdCard) -> (t: Host)
    requires
        sound(b),
        s.settling == 0,
        s.supplied,
        s.reply is None,
        card.rca == 0,
    ensures
        ends_with_device(
            |h: Seq<u32>| init_clock_run(card, b.clock, h),
            board(b),
            s,
            outcome(b, card),
            t,
        ),
        b.present ==> can_read(b, t),
{
    let v = outcome(b, card);
    let s1 = told(b, s, b.clock);
    lemma_answer_is_read(b, s, b.clock, 24);
    let end = |h: Seq<u32>| RegRun::<u32>::Finished(b.hz, h);
    lemma_device_end(end, board(b), s1, b.hz);
    let rate = |h: Seq<u32>| get_emmc_clock_hz_run(b.clock, h);
    lemma_then(
        b,
        rate,
        |h: Seq<u32>| property_read_run(b.clock, 24, h),
        |answer: Option<u32>, h: Seq<u32>|
            RegRun::<u32>::Finished(crate::emmc::usable_clock(answer), h),
        end,
        s,
        Some(b.hz),
        s1,
        b.hz,
        s1,
    );
    let t = lemma_controller_is_reset(b, s1, card);
    lemma_then(
        b,
        |h: Seq<u32>| init_clock_run(card, b.clock, h),
        rate,
        |base_hz: u32, h: Seq<u32>| init_reset_run(card, base_hz, h),
        |h: Seq<u32>| init_reset_run(card, b.hz, h),
        s,
        b.hz,
        s1,
        v,
        t,
    );
    t
}

/// However the controller and the card were left, and however late they are within
/// the driver's patience, the initialisation of a card that was not addressed before
/// comes to its end with success: the driver then knows the card's address and
/// whether it counts in blocks, and the card is ready to be read.
pub proof fn lemma_card_is_initialised(b: Board, s: Host, card: SdCard)
    requires
        sound(b),
        s.reply is None,
        card.rca == 0,
        b.present,
    ensures
        exists|t: Host|
            {
                &&& ends_with_device(
                    |h: Seq<u32>| sd_init_run(card, b.supply, b.clock, h),
                    board(b),
                    s,
                    (true, SdCard { rca: b.address, hccs: b.high_capacity }),
                    t,
                )
                &&& #[trigger] can_read(b, t)
            },
{
    let t = lemma_initialisation(b, s, card);
}

/// Where there is no card in the slot, the initialisation comes to its end without
/// success, and the driver knows what it knew before.
pub proof fn lemma_empty_slot(b: Board, s: Host, card: SdCard) -> (t: Host)
    requires
        sound(b),
        s.reply is None,
        card.rca == 0,
        !b.present,
    ensures
        ends_with_device(
            |h: Seq<u32>| sd_init_run(card, b.supply, b.clock, h),
            board(b),
            s,
            (false, card),
            t,
        ),
{
    lemma_initialisation(b, s, card)
}

proof fn lemma_initialisation(b: Board, s: Host, card: SdCard) -> (t: Host)
    requires
        sound(b),
        s.reply is None,
        card.rca == 0,
    ensures
        ends_with_device(
            |h: Seq<u32>| sd_init_run(card, b.supply, b.clock, h),
            board(b),
            s,
            outcome(b, card),
            t,
        ),
        b.present ==> can_read(b, t),
{
    let v = outcome(b, card);
    let s1 = told(b, s, b.supply);
    lemma_answer_is_read(b, s, b.supply, 4);
    let s2 = paused(s1, 7_500_000);
    assert(s2.settling == 0 && s2.supplied && s2.reply is None);
    let t = lemma_rate_is_asked(b, s2, card);
    let pause = sleep_op(5);
    lemma_device_op(board(b), pause, s1);
    let k2 = |_v: u32, h: Seq<u32>| init_clock_run(card, b.clock, h);
    let rest = |h: Seq<u32>| op_run(pause, h).and_then(k2);
    lemma_then(
        b,
        rest,
        |h: Seq<u32>| op_run(pause, h),
        k2,
        |h: Seq<u32>| init_clock_run(card, b.clock, h),
        s1,
        0,
        s2,
        v,
        t,
    );
    lemma_then(
        b,
        |h: Seq<u32>| sd_init_run(card, b.supply, b.clock, h),
        |h: Seq<u32>| property_read_run(b.supply, 4, h),
        |_a: Option<u32>, h: Seq<u32>| op_run(pause, h).and_then(k2),
        rest,
        s,
        Some(read(b, told(b, s, b.supply), (b.supply + 4) as u64).0),
        s1,
        v,
        t,
    );
    t
}

/// A block that cannot be read is not made up: where the card does not take the command,
/// or takes it and reports an error, the reading ends with nothing.
pub proof fn lemma_no_block_is_made_up(b: Board, s: Host, card: SdCard, lba: u32) -> (t: Host)
    requires
        b.late + b.slow < 300_000_000,
        hears(b, s),
        !b.present || !(s.state is Transfer) || (can_read(b, s) && 0 < b.errors < 0x1_0000
            && card.hccs == b.high_capacity),
    ensures
        ends_with_device(
            |h: Seq<u32>| sd_read_block_run(card, lba, h),
            board(b),
            s,
            None,
            t,
        ),
{
    let none = None::<Seq<u8>>;
    let script = |h: Seq<u32>| sd_read_block_run(card, lba, h);
    let arg = block_address(card, lba);
    let s1 = Host { blocks: 0x0001_0200, ..s };
    let s2 = command(b, asked(s1, arg), 0x113A_0010);
    let t = settled(s2);
    lemma_commands();
    lemma_issue(b, s1, 0x113A_0010, arg);
    let resp: u32 = if s2.error {
        0xFFFF_FFFF
    } else {
        s2.resp
    };
    assert(resp >= 0x1_0000);
    assert(resp & 0xFFFF_0000 != 0) by (bit_vector)
        requires
            resp >= 0x1_0000,
    ;
    let end = |h: Seq<u32>| RegRun::<Option<Seq<u8>>>::Finished(None, h);
    lemma_device_end(end, board(b), t, none);
    let sent = |h: Seq<u32>| send_cmd_run(card.rca, 0x113A_0010, arg, h);
    assert(sent =~= (|h: Seq<u32>| issue_run(0x113A_0010, arg, h)));
    let k = |resp: u32, h: Seq<u32>|
        if resp & 0xFFFF_0000 != 0 {
            RegRun::<Option<Seq<u8>>>::Finished(None, h)
        } else {
            block_ready_run(h)
        };
    let rest = |h: Seq<u32>| send_cmd_run(card.rca, 0x113A_0010, arg, h).and_then(k);
    lemma_then(b, rest, sent, k, end, s1, resp, t, none, t);
    let op = RegOp::Write(0xFE34_0004, 0x0001_0200);
    lemma_device_op(board(b), op, s);
    lemma_then(
        b,
        script,
        |h: Seq<u32>| op_run(op, h),
        |_v: u32, h: Seq<u32>| send_cmd_run(card.rca, 0x113A_0010, arg, h).and_then(k),
        rest,
        s,
        0,
        s1,
        none,
        t,
    );
    t
}

/// Which clock is gone by: the one that the firmware names, if that can be one, that is
/// if it is not 0 and at most 400 MHz; without such an answer, 200 MHz.
pub proof fn lemma_clock_of_answer(answer: Option<u32>, hz: u32)
    ensures
        0 < crate::emmc::usable_clock(answer) <= 400_000_000,
        0 < hz <= 400_000_000 ==> crate::emmc::usable_clock(Some(hz)) == hz,
        hz == 0 || hz > 400_000_000 ==> crate::emmc::usable_clock(Some(hz)) == 200_000_000,
        crate::emmc::usable_clock(None) == 200_000_000,
{
}

// ── The driver's patience ──────────────────────────────────────────────────

/// A board on which nothing moves: its registers always read the same. What is counted:
/// the instructions of pauses, looks at registers, and commands.
pub struct Stuck {
    pub nops: int,
    pub looks: int,
    pub commands: int,
}

/// The registers: the controller's status, interrupts and CONTROL1, and the mailbox's
/// status.
pub open spec fn stuck(status: u32, irpt: u32, control1: u32, mailbox: u32) -> spec_fn(
    Stuck,
    RegOp,
) -> (u32, Stuck) {
    |s: Stuck, op: RegOp|
        match op {
            RegOp::Read(a) => (
                if a == 0xFE34_0024 {
                    status
                } else if a == 0xFE34_0030 {
                    irpt
                } else if a == 0xFE34_002C {
                    control1
                } else if a == 0xFE00_B898 {
                    mailbox
                } else {
                    0
                },
                Stuck { looks: s.looks + 1, ..s },
            ),
            RegOp::Write(a, _) => (
                0,
                if a == 0xFE34_000C {
                    Stuck { commands: s.commands + 1, ..s }
                } else {
                    s
                },
            ),
            RegOp::Nops(n) => (0, Stuck { nops: s.nops + n, ..s }),
            _ => (0, s),
        }
}

proof fn lemma_poll_in_vain(
    d: spec_fn(Stuck, RegOp) -> (u32, Stuck),
    r: u32,
    s: Stuck,
    addr: u64,
    mask: u32,
    set: bool,
    n: nat,
)
    requires
        forall|s: Stuck| #[trigger]
            d(s, RegOp::Read(addr)) == (r, (Stuck { looks: s.looks + 1, ..s })),
        forall|s: Stuck| #[trigger]
            d(s, RegOp::Nops(1)) == (0u32, (Stuck { nops: s.nops + 1, ..s })),
        (r & mask != 0) != set,
    ensures
        ends_with_device(
            |h: Seq<u32>| poll_run(addr, mask, set, n, h),
            d,
            s,
            false,
            (Stuck { nops: s.nops + n, looks: s.looks + n, ..s }),
        ),
    decreases n,
{
    let script = |h: Seq<u32>| poll_run(addr, mask, set, n, h);
    let t = Stuck { nops: s.nops + n, looks: s.looks + n, ..s };
    if n == 0 {
        lemma_device_end(script, d, s, false);
    } else {
        let m = (n - 1) as nat;
        let s1 = Stuck { looks: s.looks + 1, ..s };
        let s2 = Stuck { nops: s.nops + 1, ..s1 };
        lemma_poll_in_vain(d, r, s2, addr, mask, set, m);
        let again = |h: Seq<u32>| poll_run(addr, mask, set, m, h);
        let left = |h: Seq<u32>|
            op_run(RegOp::Nops(1), h).and_then(
                |_v: u32, h: Seq<u32>| poll_run(addr, mask, set, m, h),
            );
        assert(d(s1, RegOp::Nops(1)) == (0u32, s2));
        assert forall|g: Seq<u32>| #[trigger] again(g) == left(cons(0, g)) by {
            lemma_pair(0, g);
        }
        lemma_device_step(left, again, d, RegOp::Nops(1), s1, false, t);
        assert(d(s, RegOp::Read(addr)) == (r, s1));
        assert forall|g: Seq<u32>| #[trigger] left(g) == script(cons(r, g)) by {
            lemma_pair(r, g);
        }
        assert(script(Seq::empty()) == RegRun::<bool>::Wants(RegOp::Read(addr)));
        lemma_device_step(script, left, d, RegOp::Read(addr), s, false, t);
    }
}

proof fn lemma_interrupt_in_vain(status: u32, control1: u32, mailbox: u32, s: Stuck, n: nat)
    ensures
        ends_with_device(
            |h: Seq<u32>| interrupt_run(1, n, h),
            stuck(status, 0, control1, mailbox),
            s,
            false,
            (Stuck { nops: s.nops + n, looks: s.looks + n, ..s }),
        ),
    decreases n,
{
    let d = stuck(status, 0, control1, mailbox);
    let script = |h: Seq<u32>| interrupt_run(1, n, h);
    let t = Stuck { nops: s.nops + n, looks: s.looks + n, ..s };
    if n == 0 {
        lemma_device_end(script, d, s, false);
    } else {
        let m = (n - 1) as nat;
        let op = RegOp::Read(0xFE34_0030);
        let s1 = Stuck { looks: s.looks + 1, ..s };
        let s2 = Stuck { nops: s.nops + 1, ..s1 };
        lemma_masks();
        lemma_interrupt_in_vain(status, control1, mailbox, s2, m);
        let again = |h: Seq<u32>| interrupt_run(1, m, h);
        let left = |h: Seq<u32>|
            op_run(RegOp::Nops(1), h).and_then(|_v: u32, h: Seq<u32>| interrupt_run(1, m, h));
        assert forall|g: Seq<u32>| #[trigger] again(g) == left(cons(0, g)) by {
            lemma_pair(0, g);
        }
        lemma_device_step(left, again, d, RegOp::Nops(1), s1, false, t);
        assert forall|g: Seq<u32>| #[trigger] left(g) == script(cons(0, g)) by {
            lemma_pair(0, g);
        }
        assert(script(Seq::empty()) == RegRun::<bool>::Wants(op));
        lemma_device_step(script, left, d, op, s, false, t);
    }
}

/// A controller that stays busy gets no command: after fifteen million looks, with as
/// many instructions between them, the driver gives up.
pub proof fn lemma_busy_controller_is_given_up(
    irpt: u32,
    control1: u32,
    mailbox: u32,
    cmd: u32,
    arg: u32,
    s: Stuck,
)
    ensures
        ends_with_device(
            |h: Seq<u32>| issue_run(cmd, arg, h),
            stuck(3, irpt, control1, mailbox),
            s,
            0xFFFF_FFFF,
            (Stuck { nops: s.nops + 15_000_000, looks: s.looks + 15_000_000, ..s }),
        ),
{
    let d = stuck(3, irpt, control1, mailbox);
    let n = 15_000_000nat;
    let t = Stuck { nops: s.nops + 15_000_000, looks: s.looks + 15_000_000, ..s };
    lemma_masks();
    lemma_poll_in_vain(d, 3, s, 0xFE34_0024, 3, false, n);
    let end = |h: Seq<u32>| RegRun::<u32>::Finished(0xFFFF_FFFF, h);
    lemma_device_end(end, d, t, 0xFFFF_FFFFu32);
    lemma_device_then(
        d,
        |h: Seq<u32>| issue_run(cmd, arg, h),
        |h: Seq<u32>| poll_run(0xFE34_0024, 3, false, n, h),
        |idle: bool, h: Seq<u32>|
            if idle {
                issue_write_run(cmd, arg, h)
            } else {
                RegRun::<u32>::Finished(0xFFFF_FFFF, h)
            },
        end,
        s,
        false,
        t,
        0xFFFF_FFFF,
        t,
    );
}

/// A command that is never finished is given up after three hundred million looks.
pub proof fn lemma_silent_controller_is_given_up(
    control1: u32,
    mailbox: u32,
    cmd: u32,
    arg: u32,
    s: Stuck,
)
    ensures
        ends_with_device(
            |h: Seq<u32>| issue_run(cmd, arg, h),
            stuck(0, 0, control1, mailbox),
            s,
            0xFFFF_FFFF,
            (Stuck {
                nops: s.nops + 300_000_000,
                looks: s.looks + 300_000_001,
                commands: s.commands + 1,
            }),
        ),
{
    let d = stuck(0, 0, control1, mailbox);
    let n = 300_000_000nat;
    let s1 = Stuck { looks: s.looks + 1, ..s };
    let s2 = Stuck { commands: s.commands + 1, ..s1 };
    let t = Stuck { nops: s.nops + 300_000_000, looks: s.looks + 300_000_001, ..s2 };
    lemma_masks();
    lemma_interrupt_in_vain(0, control1, mailbox, s2, n);
    let end = |h: Seq<u32>| RegRun::<u32>::Finished(0xFFFF_FFFF, h);
    lemma_device_end(end, d, t, 0xFFFF_FFFFu32);
    let wait = |h: Seq<u32>| issue_wait_run(h);
    lemma_device_then(
        d,
        wait,
        |h: Seq<u32>| interrupt_run(1, n, h),
        |done: bool, h: Seq<u32>|
            if done {
                op_run(RegOp::Read(0xFE34_0010), h)
            } else {
                RegRun::<u32>::Finished(0xFFFF_FFFF, h)
            },
        end,
        s2,
        false,
        t,
        0xFFFF_FFFF,
        t,
    );
    let ops = issue_ops(cmd, arg);
    let rest = |h: Seq<u32>| issue_write_run(cmd, arg, h);
    lemma_device_batch(d, ops, s1);
    assert(state_after(d, ops, s1) == s2) by {
        reveal_with_fuel(state_after, 4);
        assert(ops.drop_first() =~= seq![ops[1], ops[2]]);
        assert(ops.drop_first().drop_first() =~= seq![ops[2]]);
        assert(ops.drop_first().drop_first().drop_first() =~= Seq::empty());
    }
    lemma_device_then(
        d,
        rest,
        |h: Seq<u32>| batch_run::<RegOp, u32>(ops, h),
        |_v: (), h: Seq<u32>| issue_wait_run(h),
        wait,
        s1,
        (),
        s2,
        0xFFFF_FFFF,
        t,
    );
    let polls = 15_000_000nat;
    let first = |h: Seq<u32>| poll_run(0xFE34_0024, 3, false, polls, h);
    let idle = |h: Seq<u32>| RegRun::<bool>::Finished(true, h);
    let look = RegOp::Read(0xFE34_0024);
    lemma_device_end(idle, d, s1, true);
    assert forall|g: Seq<u32>| #[trigger] idle(g) == first(cons(0, g)) by {
        lemma_pair(0, g);
    }
    assert(first(Seq::empty()) == RegRun::<bool>::Wants(look));
    lemma_device_step(first, idle, d, look, s, true, s1);
    lemma_device_then(
        d,
        |h: Seq<u32>| issue_run(cmd, arg, h),
        first,
        |idle: bool, h: Seq<u32>|
            if idle {
                issue_write_run(cmd, arg, h)
            } else {
                RegRun::<u32>::Finished(0xFFFF_FFFF, h)
            },
        rest,
        s,
        true,
        s1,
        0xFFFF_FFFF,
        t,
    );
}

/// A controller that does not come out of its reset is given up after 150 million looks,
/// and gets no command.
pub proof fn lemma_lasting_reset_is_given_up(
    status: u32,
    irpt: u32,
    mailbox: u32,
    card: SdCard,
    hz: u32,
    s: Stuck,
)
    ensures
        ends_with_device(
            |h: Seq<u32>| init_reset_run(card, hz, h),
            stuck(status, irpt, 0x0100_0000, mailbox),
            s,
            (false, card),
            (Stuck { nops: s.nops + 165_000_000, looks: s.looks + 150_000_000, ..s }),
        ),
{
    let d = stuck(status, irpt, 0x0100_0000, mailbox);
    let n = 150_000_000nat;
    let ops = reset_ops();
    let s1 = Stuck { nops: s.nops + 15_000_000, ..s };
    let t = Stuck { nops: s.nops + 165_000_000, looks: s.looks + 150_000_000, ..s };
    let v = (false, card);
    lemma_masks();
    lemma_poll_in_vain(d, 0x0100_0000, s1, 0xFE34_002C, 0x0100_0000, false, n);
    let end = |h: Seq<u32>| RegRun::<(bool, SdCard)>::Finished((false, card), h);
    lemma_device_end(end, d, t, v);
    let k2 = |ok: bool, h: Seq<u32>|
        if ok {
            init_power_run(card, hz, h)
        } else {
            RegRun::<(bool, SdCard)>::Finished((false, card), h)
        };
    let poll = |h: Seq<u32>| poll_run(0xFE34_002C, 0x0100_0000, false, n, h).and_then(k2);
    lemma_device_then(
        d,
        poll,
        |h: Seq<u32>| poll_run(0xFE34_002C, 0x0100_0000, false, n, h),
        k2,
        end,
        s1,
        false,
        t,
        v,
        t,
    );
    lemma_device_batch(d, ops, s);
    assert(state_after(d, ops, s) == s1) by {
        reveal_with_fuel(state_after, 5);
        assert(ops.drop_first() =~= seq![ops[1], ops[2], ops[3]]);
        assert(ops.drop_first().drop_first() =~= seq![ops[2], ops[3]]);
        assert(ops.drop_first().drop_first().drop_first() =~= seq![ops[3]]);
        assert(ops.drop_first().drop_first().drop_first().drop_first() =~= Seq::empty());
    }
    lemma_device_then(
        d,
        |h: Seq<u32>| init_reset_run(card, hz, h),
        |h: Seq<u32>| batch_run::<RegOp, u32>(ops, h),
        |_v: (), h: Seq<u32>| poll_run(0xFE34_002C, 0x0100_0000, false, n, h).and_then(k2),
        poll,
        s,
        (),
        s1,
        v,
        t,
    );
}

proof fn lemma_room_in_vain(status: u32, irpt: u32, control1: u32, phys: u64, s: Stuck, n: nat)
    requires
        n > 0,
    ensures
        ends_with_device(
            |h: Seq<u32>| post_run(phys, n, h),
            stuck(status, irpt, control1, 0x8000_0000),
            s,
            false,
            (Stuck { looks: s.looks + n, ..s }),
        ),
    decreases n,
{
    let d = stuck(status, irpt, control1, 0x8000_0000);
    let script = |h: Seq<u32>| post_run(phys, n, h);
    let op = RegOp::Read(0xFE00_B898);
    let r = 0x8000_0000u32;
    let s1 = Stuck { looks: s.looks + 1, ..s };
    let t = Stuck { looks: s.looks + n, ..s };
    lemma_masks();
    assert(script(Seq::empty()) == RegRun::<bool>::Wants(op));
    if n == 1 {
        let end = |h: Seq<u32>| RegRun::<bool>::Finished(false, h);
        lemma_device_end(end, d, s1, false);
        assert forall|g: Seq<u32>| #[trigger] end(g) == script(cons(r, g)) by {
            lemma_pair(r, g);
        }
        lemma_device_step(script, end, d, op, s, false, t);
    } else {
        let m = (n - 1) as nat;
        let again = |h: Seq<u32>| post_run(phys, m, h);
        lemma_room_in_vain(status, irpt, control1, phys, s1, m);
        assert forall|g: Seq<u32>| #[trigger] again(g) == script(cons(r, g)) by {
            lemma_pair(r, g);
        }
        lemma_device_step(script, again, d, op, s, false, t);
    }
}

proof fn lemma_reply_in_vain(status: u32, irpt: u32, control1: u32, s: Stuck, n: nat)
    requires
        n > 0,
    ensures
        ends_with_device(
            |h: Seq<u32>| reply_run(n, h),
            stuck(status, irpt, control1, 0x4000_0000),
            s,
            false,
            (Stuck { looks: s.looks + n, ..s }),
        ),
    decreases n,
{
    let d = stuck(status, irpt, control1, 0x4000_0000);
    let script = |h: Seq<u32>| reply_run(n, h);
    let op = RegOp::Read(0xFE00_B898);
    let r = 0x4000_0000u32;
    let s1 = Stuck { looks: s.looks + 1, ..s };
    let t = Stuck { looks: s.looks + n, ..s };
    lemma_masks();
    if n == 1 {
        let end = |h: Seq<u32>| RegRun::<bool>::Finished(false, h);
        lemma_device_end(end, d, s1, false);
        assert forall|g: Seq<u32>| #[trigger] end(g) == script(cons(r, g)) by {
            lemma_pair(r, g);
        }
        lemma_device_step(script, end, d, op, s, false, t);
    } else {
        let m = (n - 1) as nat;
        let again = |h: Seq<u32>| reply_run(m, h);
        lemma_reply_in_vain(status, irpt, control1, s1, m);
        assert forall|g: Seq<u32>| #[trigger] again(g) == script(cons(r, g)) by {
            lemma_pair(r, g);
        }
        lemma_device_step(script, again, d, op, s, false, t);
    }
}

/// A message for which there is no room is given up after ten thousand looks, and one
/// that is not answered after a hundred thousand more than the one that found room.
pub proof fn lemma_firmware_is_given_up(
    status: u32,
    irpt: u32,
    control1: u32,
    phys: u64,
    s: Stuck,
)
    requires
        phys + 64 <= 0xFE00_0000,
    ensures
        ends_with_device(
            |h: Seq<u32>| property_run(phys, h),
            stuck(status, irpt, control1, 0x8000_0000),
            s,
            false,
            (Stuck { looks: s.looks + 10_000, ..s }),
        ),
        ends_with_device(
            |h: Seq<u32>| property_run(phys, h),
            stuck(status, irpt, control1, 0x4000_0000),
            s,
            false,
            (Stuck { looks: s.looks + 100_001, ..s }),
        ),
{
    lemma_property_in_vain(status, irpt, control1, phys, s, 0x8000_0000, 10_000);
    lemma_room_in_vain(status, irpt, control1, phys, s, 10_000);
    let d = stuck(status, irpt, control1, 0x4000_0000);
    let s1 = Stuck { looks: s.looks + 1, ..s };
    let t = Stuck { looks: s.looks + 100_001, ..s };
    let r = 0x4000_0000u32;
    lemma_masks();
    lemma_reply_in_vain(status, irpt, control1, s1, 100_000);
    let reply = |h: Seq<u32>| reply_run(100_000, h);
    let post = RegOp::Write(0xFE00_B8A0, mailbox_word(phys));
    let posted = |h: Seq<u32>|
        op_run(post, h).and_then(|_v: u32, h: Seq<u32>| reply_run(100_000, h));
    assert forall|g: Seq<u32>| #[trigger] reply(g) == posted(cons(0, g)) by {
        lemma_pair(0, g);
    }
    lemma_device_step(posted, reply, d, post, s1, false, t);
    let posting = |h: Seq<u32>| post_run(phys, 10_000, h);
    assert forall|g: Seq<u32>| #[trigger] posted(g) == posting(cons(r, g)) by {
        lemma_pair(r, g);
    }
    lemma_device_step(posting, posted, d, RegOp::Read(0xFE00_B898), s, false, t);
    lemma_property_in_vain(status, irpt, control1, phys, s, 0x4000_0000, 100_001);
}

/// Preparing the message takes no looks.
proof fn lemma_property_in_vain(
    status: u32,
    irpt: u32,
    control1: u32,
    phys: u64,
    s: Stuck,
    mailbox: u32,
    looks: int,
)
    requires
        phys + 64 <= 0xFE00_0000,
    ensures
        ends_with_device(
            |h: Seq<u32>| post_run(phys, 10_000, h),
            stuck(status, irpt, control1, mailbox),
            s,
            false,
            (Stuck { looks: s.looks + looks, ..s }),
        ) ==> ends_with_device(
            |h: Seq<u32>| property_run(phys, h),
            stuck(status, irpt, control1, mailbox),
            s,
            false,
            (Stuck { looks: s.looks + looks, ..s }),
        ),
{
    let d = stuck(status, irpt, control1, mailbox);
    let t = Stuck { looks: s.looks + looks, ..s };
    let posting = |h: Seq<u32>| post_run(phys, 10_000, h);
    if ends_with_device(posting, d, s, false, t) {
        let ops = seq![
            RegOp::Write((phys + 4) as u64, 0),
            RegOp::Write((phys + 24) as u64, 0),
            RegOp::DataSyncBarrier,
        ];
        lemma_device_batch(d, ops, s);
        assert(state_after(d, ops, s) == s) by {
            reveal_with_fuel(state_after, 4);
            assert(ops.drop_first() =~= seq![ops[1], ops[2]]);
            assert(ops.drop_first().drop_first() =~= seq![ops[2]]);
            assert(ops.drop_first().drop_first().drop_first() =~= Seq::empty());
        }
        lemma_device_then(
            d,
            |h: Seq<u32>| property_run(phys, h),
            |h: Seq<u32>| batch_run::<RegOp, u32>(ops, h),
            |_v: (), h: Seq<u32>| post_run(phys, 10_000, h),
            posting,
            s,
            (),
            s,
            false,
            t,
        );
    }
}

} // verus!
