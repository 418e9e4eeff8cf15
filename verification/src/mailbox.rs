//! The VideoCore mailbox, through which the GPU is asked to set up the display.
//!
//! A message is a buffer of 32-bit words at an address that is a multiple of
//! sixteen: the low four bits of the posted word carry the channel.
use vstd::prelude::*;
use crate::board::{Board, peripheral_base};
use crate::session::{Run, Next, RegOp, RegRun, cons, op_run};

verus! {

broadcast use crate::session::lemma_cons;

/// The mailbox to the GPU is full.
pub const STATUS_FULL: u32 = 0x8000_0000;
/// The mailbox from the GPU is empty.
pub const STATUS_EMPTY: u32 = 0x4000_0000;
/// The channel of the property interface.
pub const PROP_CHANNEL: u32 = 8;
pub const REQUEST: u32 = 0;
pub const RESPONSE_SUCCESS: u32 = 0x8000_0000;

/// The first of the mailbox registers, from which replies are read.
pub open spec fn read_reg(board: Board) -> u64 {
    (peripheral_base(board) + 0xB880) as u64
}

pub open spec fn status_reg(board: Board) -> u64 {
    (read_reg(board) + 0x18) as u64
}

pub open spec fn write_reg(board: Board) -> u64 {
    (read_reg(board) + 0x20) as u64
}

/// What is posted for a buffer on a channel.
pub open spec fn message_word(buf: u32, channel: u32) -> u32 {
    (buf & 0xFFFF_FFF0) | channel
}

/// Sends the buffer to the GPU and waits for the reply on the same channel. The value
/// says whether the GPU has put the mark of success into the buffer's second word.
pub open spec fn call_run(board: Board, buf: u32, channel: u32, h: Seq<u32>) -> RegRun<bool> {
    op_run(RegOp::DataMemoryBarrier, h).and_then(
        |_r: u32, h: Seq<u32>| room_run(board, buf, channel, h),
    )
}

/// Waits until there is room for the message, and goes on.
pub open spec fn room_run(board: Board, buf: u32, channel: u32, h: Seq<u32>) -> RegRun<bool>
    decreases h.len(),
{
    if h.len() == 0 {
        Run::Wants(RegOp::Read(status_reg(board)))
    } else if h[0] & STATUS_FULL != 0 {
        room_run(board, buf, channel, h.drop_first())
    } else {
        post_run(board, buf, channel, h.drop_first())
    }
}

/// Posts the message, and goes on.
pub open spec fn post_run(board: Board, buf: u32, channel: u32, h: Seq<u32>) -> RegRun<bool> {
    op_run(RegOp::Write(write_reg(board), message_word(buf, channel)), h).and_then(
        |_r: u32, h: Seq<u32>| wait_run(board, buf, channel, h),
    )
}

/// Waits for a reply, and goes on.
pub open spec fn wait_run(board: Board, buf: u32, channel: u32, h: Seq<u32>) -> RegRun<bool>
    decreases h.len(),
{
    if h.len() == 0 {
        Run::Wants(RegOp::Read(status_reg(board)))
    } else if h[0] & STATUS_EMPTY != 0 {
        wait_run(board, buf, channel, h.drop_first())
    } else {
        reply_run(board, buf, channel, h.drop_first())
    }
}

/// Takes a reply; one on another channel is dropped.
pub open spec fn reply_run(board: Board, buf: u32, channel: u32, h: Seq<u32>) -> RegRun<bool>
    decreases h.len(),
{
    if h.len() == 0 {
        Run::Wants(RegOp::Read(read_reg(board)))
    } else if h[0] & 0xF == channel {
        code_run(buf, h.drop_first())
    } else {
        wait_run(board, buf, channel, h.drop_first())
    }
}

/// Looks at the response code.
pub open spec fn code_run(buf: u32, h: Seq<u32>) -> RegRun<bool> {
    op_run(RegOp::Read((buf + 4) as u64), h).and_then(
        |v: u32, h: Seq<u32>| Run::Finished(v == RESPONSE_SUCCESS, h),
    )
}

#[derive(Clone, Copy, PartialEq, Eq, Structural, Debug)]
enum CallStage {
    Barrier,
    Room,
    Post,
    Wait,
    Reply,
    Code,
    Done(bool),
}

/// A message to the GPU under way.
pub struct Call {
    board: Board,
    buf: u32,
    channel: u32,
    stage: CallStage,
}

impl Call {
    /// What happens from here on.
    pub closed spec fn run(self, h: Seq<u32>) -> RegRun<bool> {
        match self.stage {
            CallStage::Barrier => call_run(self.board, self.buf, self.channel, h),
            CallStage::Room => room_run(self.board, self.buf, self.channel, h),
            CallStage::Post => post_run(self.board, self.buf, self.channel, h),
            CallStage::Wait => wait_run(self.board, self.buf, self.channel, h),
            CallStage::Reply => reply_run(self.board, self.buf, self.channel, h),
            CallStage::Code => code_run(self.buf, h),
            CallStage::Done(ok) => Run::Finished(ok, h),
        }
    }

    pub fn next(&self) -> (r: Next<RegOp, bool>)
        ensures
            r == self.run(Seq::empty()).asks(),
            r matches Next::Done(v) ==> forall|h: Seq<u32>| #[trigger]
                self.run(h) == RegRun::Finished(v, h),
    {
        let base: u64 = self.board.peripherals() + 0xB880;
        match self.stage {
            CallStage::Barrier => Next::Op(RegOp::DataMemoryBarrier),
            CallStage::Room | CallStage::Wait => Next::Op(RegOp::Read(base + 0x18)),
            CallStage::Post => Next::Op(
                RegOp::Write(base + 0x20, (self.buf & 0xFFFF_FFF0) | self.channel),
            ),
            CallStage::Reply => Next::Op(RegOp::Read(base)),
            CallStage::Code => Next::Op(RegOp::Read(self.buf as u64 + 4)),
            CallStage::Done(ok) => Next::Done(ok),
        }
    }

    pub fn answer(&mut self, r: u32)
        requires
            old(self).run(Seq::empty()) is Wants,
        ensures
            forall|h: Seq<u32>|
                #![trigger final(self).run(h)]
                #![trigger old(self).run(cons(r, h))]
                final(self).run(h) == old(self).run(cons(r, h)),
    {
        match self.stage {
            CallStage::Barrier => {
                self.stage = CallStage::Room;
            },
            CallStage::Room => {
                if r & STATUS_FULL == 0 {
                    self.stage = CallStage::Post;
                }
            },
            CallStage::Post => {
                self.stage = CallStage::Wait;
            },
            CallStage::Wait => {
                if r & STATUS_EMPTY == 0 {
                    self.stage = CallStage::Reply;
                }
            },
            CallStage::Reply => {
                if r & 0xF == self.channel {
                    self.stage = CallStage::Code;
                } else {
                    self.stage = CallStage::Wait;
                }
            },
            CallStage::Code => {
                self.stage = CallStage::Done(r == RESPONSE_SUCCESS);
            },
            CallStage::Done(_) => {},
        }
    }
}

/// Sends a buffer to the GPU on a channel and waits for the reply.
pub fn call(board: Board, buf: u32, channel: u32) -> (m: Call)
    requires
        buf % 16 == 0,
    ensures
        forall|h: Seq<u32>| #[trigger] m.run(h) == call_run(board, buf, channel, h),
{
    Call { board, buf, channel, stage: CallStage::Barrier }
}

/// The posted word carries both the address and the channel, and neither spoils the
/// other.
pub proof fn lemma_message_word(buf: u32, channel: u32)
    requires
        buf % 16 == 0,
        channel < 16,
    ensures
        message_word(buf, channel) & 0xFFFF_FFF0 == buf,
        message_word(buf, channel) & 0xF == channel,
{
    assert(((buf & 0xFFFF_FFF0) | channel) & 0xFFFF_FFF0 == buf && ((buf & 0xFFFF_FFF0) | channel)
        & 0xF == channel) by (bit_vector)
        requires
            buf % 16 == 0,
            channel < 16,
    ;
}

} // verus!
