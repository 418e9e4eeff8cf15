//! The PL011 UART, at the same offset from the peripheral base on every board.
use vstd::prelude::*;
use crate::board::{Board, peripheral_base};
use crate::session::{Run, Next, RegOp, RegRun, cons, op_run, performed, rest};
use crate::text::utf8;

verus! {

broadcast use crate::session::lemma_cons;

/// Flag register: the transmit FIFO is full.
pub const FR_TXFF: u32 = 0x20;
/// Flag register: the receive FIFO is empty.
pub const FR_RXFE: u32 = 0x10;

/// The data register, the first of the UART's registers.
pub open spec fn data_reg(board: Board) -> u64 {
    (peripheral_base(board) + 0x20_1000) as u64
}

pub open spec fn flag_reg(board: Board) -> u64 {
    (data_reg(board) + 0x18) as u64
}

/// The address of the UART, for display.
pub fn base_address(board: Board) -> (addr: usize)
    ensures
        addr == data_reg(board),
{
    match board {
        Board::Rpi3 => 0x3F20_1000,
        Board::Rpi4 => 0xFE20_1000,
    }
}

fn get_data_reg(board: Board) -> (addr: u64)
    ensures
        addr == data_reg(board),
{
    board.peripherals() + 0x20_1000
}

// ── Set-up ─────────────────────────────────────────────────────────────────

/// The integer and the fractional part (in 64ths) of the baud rate divisor.
pub const BAUD_INT: u32 = 26;
pub const BAUD_FRAC: u32 = 3;
/// The clock of the UART, in Hz.
pub const UART_CLOCK: u32 = 48_000_000;
pub const BAUD_RATE: u32 = 115_200;

/// Disables the UART, clears all interrupts, sets 115200 baud, eight data bits, no
/// parity, one stop bit and FIFOs, and enables sending and receiving.
pub open spec fn init_ops(board: Board) -> Seq<RegOp> {
    let base = data_reg(board);
    seq![
        RegOp::Write((base + 0x30) as u64, 0),
        RegOp::Write((base + 0x44) as u64, 0x7FF),
        RegOp::Write((base + 0x24) as u64, BAUD_INT),
        RegOp::Write((base + 0x28) as u64, BAUD_FRAC),
        RegOp::Write((base + 0x2C) as u64, 0x70),
        RegOp::Write((base + 0x30) as u64, 0x301),
    ]
}

/// The register writes that set the UART up.
pub fn init(board: Board) -> (ops: Vec<RegOp>)
    ensures
        ops@ == init_ops(board),
{
    let base: u64 = get_data_reg(board);
    let mut ops: Vec<RegOp> = Vec::new();
    ops.push(RegOp::Write(base + 0x30, 0));
    ops.push(RegOp::Write(base + 0x44, 0x7FF));
    ops.push(RegOp::Write(base + 0x24, BAUD_INT));
    ops.push(RegOp::Write(base + 0x28, BAUD_FRAC));
    ops.push(RegOp::Write(base + 0x2C, 0x70));
    ops.push(RegOp::Write(base + 0x30, 0x301));
    assert(ops@ =~= init_ops(board));
    ops
}

/// The divisor is the multiple of 1/64 that comes closest to the clock divided by
/// sixteen times the baud rate.
pub proof fn lemma_baud_divisor()
    ensures
        ({
            let d = 64 * BAUD_INT + BAUD_FRAC;
            let off = d * BAUD_RATE - 4 * UART_CLOCK;
            -(BAUD_RATE as int) <= 2 * off <= BAUD_RATE
        }),
{
}

// ── Sending ────────────────────────────────────────────────────────────────

/// Waits until there is room in the transmit FIFO, then sends a byte.
pub open spec fn putc_run(board: Board, c: u8, h: Seq<u32>) -> RegRun<()>
    decreases h.len(),
{
    if h.len() == 0 {
        Run::Wants(RegOp::Read(flag_reg(board)))
    } else if h[0] & FR_TXFF != 0 {
        putc_run(board, c, h.drop_first())
    } else {
        send_run(board, c, h.drop_first())
    }
}

/// The part of [`putc_run`] after the wait.
pub open spec fn send_run(board: Board, c: u8, h: Seq<u32>) -> RegRun<()> {
    op_run(RegOp::Write(data_reg(board), c as u32), h).and_then(
        |_r: u32, h: Seq<u32>| Run::Finished((), h),
    )
}

#[derive(Clone, Copy, PartialEq, Eq, Structural, Debug)]
enum PutStage {
    Wait,
    Send,
    Done,
}

/// The sending of a byte under way.
pub struct Putc {
    board: Board,
    c: u8,
    stage: PutStage,
}

impl Putc {
    /// What happens from here on.
    pub closed spec fn run(self, h: Seq<u32>) -> RegRun<()> {
        match self.stage {
            PutStage::Wait => putc_run(self.board, self.c, h),
            PutStage::Send => send_run(self.board, self.c, h),
            PutStage::Done => Run::Finished((), h),
        }
    }

    pub fn next(&self) -> (r: Next<RegOp, ()>)
        ensures
            r == self.run(Seq::empty()).asks(),
            r matches Next::Done(v) ==> forall|h: Seq<u32>| #[trigger]
                self.run(h) == RegRun::Finished(v, h),
    {
        let base: u64 = get_data_reg(self.board);
        match self.stage {
            PutStage::Wait => Next::Op(RegOp::Read(base + 0x18)),
            PutStage::Send => Next::Op(RegOp::Write(base, self.c as u32)),
            PutStage::Done => Next::Done(()),
        }
    }

    pub fn answer(&mut self, r: u32)
        requires
            old(self).run(Seq::empty()) is Wants,
        ensures
            forall|h: Seq<u32>|
                #![trigger final(self).run(h)]
                #![trigger old(self).run(cons(r, h))]
                final(self).run(h) == old(self).run(cons(r, h)),
    {
        match self.stage {
            PutStage::Wait => {
                if r & FR_TXFF == 0 {
                    self.stage = PutStage::Send;
                }
            },
            PutStage::Send => {
                self.stage = PutStage::Done;
            },
            PutStage::Done => {},
        }
    }
}

/// Sends a single byte.
pub fn putc(board: Board, c: u8) -> (m: Putc)
    ensures
        m.run(Seq::empty()) is Wants,
        forall|h: Seq<u32>| #[trigger] m.run(h) == putc_run(board, c, h),
{
    Putc { board, c, stage: PutStage::Wait }
}

/// Text as it goes over the line: a carriage return before every line feed.
pub open spec fn crlf(s: Seq<u8>) -> Seq<u8>
    decreases s.len(),
{
    if s.len() == 0 {
        Seq::empty()
    } else {
        (if s[0] == 0x0A {
            seq![0x0Du8, 0x0Au8]
        } else {
            seq![s[0]]
        }) + crlf(s.drop_first())
    }
}

/// Sends bytes one after the other.
pub open spec fn puts_run(board: Board, bytes: Seq<u8>, h: Seq<u32>) -> RegRun<()>
    decreases bytes.len(),
{
    if bytes.len() == 0 {
        Run::Finished((), h)
    } else {
        putc_run(board, bytes[0], h).and_then(
            |_u: (), h: Seq<u32>| puts_run(board, bytes.drop_first(), h),
        )
    }
}

/// The sending of a text under way.
pub struct Puts {
    board: Board,
    bytes: Vec<u8>,
    /// How many of the bytes were sent, or are being sent.
    pos: usize,
    current: Option<Putc>,
}

impl Puts {
    pub closed spec fn wf(self) -> bool {
        &&& self.pos <= self.bytes@.len()
        &&& match self.current {
            Some(p) => p.run(Seq::empty()) is Wants,
            None => self.pos == self.bytes@.len(),
        }
    }

    /// What happens from here on.
    pub closed spec fn run(self, h: Seq<u32>) -> RegRun<()> {
        let left = self.bytes@.skip(self.pos as int);
        match self.current {
            Some(p) => p.run(h).and_then(|_u: (), h: Seq<u32>| puts_run(self.board, left, h)),
            None => Run::Finished((), h),
        }
    }

    fn start(board: Board, bytes: Vec<u8>) -> (m: Puts)
        ensures
            m.wf(),
            forall|h: Seq<u32>| #[trigger] m.run(h) == puts_run(board, bytes@, h),
    {
        if bytes.len() == 0 {
            Puts { board, bytes, pos: 0, current: None }
        } else {
            assert(bytes@.drop_first() =~= bytes@.skip(1));
            let first: Putc = putc(board, bytes[0]);
            Puts { board, bytes, pos: 1, current: Some(first) }
        }
    }

    pub fn next(&self) -> (r: Next<RegOp, ()>)
        requires
            self.wf(),
        ensures
            r == self.run(Seq::empty()).asks(),
            r matches Next::Done(v) ==> forall|h: Seq<u32>| #[trigger]
                self.run(h) == RegRun::Finished(v, h),
    {
        match &self.current {
            Some(p) => p.next(),
            None => Next::Done(()),
        }
    }

    pub fn answer(&mut self, r: u32)
        requires
            old(self).wf(),
            old(self).run(Seq::empty()) is Wants,
        ensures
            final(self).wf(),
            forall|h: Seq<u32>|
                #![trigger final(self).run(h)]
                #![trigger old(self).run(cons(r, h))]
                final(self).run(h) == old(self).run(cons(r, h)),
    {
        let ghost left = self.bytes@.skip(self.pos as int);
        match &mut self.current {
            Some(p) => {
                p.answer(r);
                if let Next::Done(_) = p.next() {
                    if self.pos < self.bytes.len() {
                        assert(left.drop_first() =~= self.bytes@.skip(self.pos + 1));
                        self.current = Some(putc(self.board, self.bytes[self.pos]));
                        self.pos = self.pos + 1;
                    } else {
                        self.current = None;
                    }
                }
            },
            None => {},
        }
    }
}

fn get_crlf(s: &[u8]) -> (out: Vec<u8>)
    ensures
        out@ == crlf(s@),
{
    let mut out: Vec<u8> = Vec::new();
    let n: usize = s.len();
    assert(s@.skip(0) =~= s@);
    for i in 0..n
        invariant
            n == s@.len(),
            out@ + crlf(s@.skip(i as int)) == crlf(s@),
    {
        let ghost before = out@;
        let c: u8 = s[i];
        if c == 0x0A {
            out.push(0x0D);
        }
        out.push(c);
        proof {
            let left = s@.skip(i as int);
            assert(left.drop_first() =~= s@.skip(i + 1));
            assert(out@ + crlf(s@.skip(i + 1)) =~= before + crlf(left));
        }
    }
    assert(out@ + crlf(s@.skip(n as int)) =~= out@);
    out
}

/// Sends text.
pub fn put_bytes(board: Board, text: &[u8]) -> (m: Puts)
    ensures
        m.wf(),
        forall|h: Seq<u32>| #[trigger] m.run(h) == puts_run(board, crlf(text@), h),
{
    Puts::start(board, get_crlf(text))
}

/// Sends a string.
pub fn puts(board: Board, s: &str) -> (m: Puts)
    ensures
        m.wf(),
        forall|h: Seq<u32>| #[trigger] m.run(h) == puts_run(board, crlf(utf8(s)), h),
{
    put_bytes(board, s.as_bytes())
}

/// Writes strings to the UART.
pub struct UartWriter {
    pub board: Board,
}

impl UartWriter {
    /// Sends a string.
    pub fn write_str(&self, s: &str) -> (m: Puts)
        ensures
            m.wf(),
            forall|h: Seq<u32>| #[trigger] m.run(h) == puts_run(self.board, crlf(utf8(s)), h),
    {
        puts(self.board, s)
    }
}

/// The bytes that went out over the line.
pub open spec fn sent(board: Board, ops: Seq<RegOp>) -> Seq<u32>
    decreases ops.len(),
{
    if ops.len() == 0 {
        Seq::empty()
    } else {
        (match ops[0] {
            RegOp::Write(addr, v) => if addr == data_reg(board) {
                seq![v]
            } else {
                Seq::empty()
            },
            _ => Seq::empty(),
        }) + sent(board, ops.drop_first())
    }
}

proof fn lemma_sent_cons(board: Board, op: RegOp, ops: Seq<RegOp>)
    ensures
        sent(board, seq![op] + ops) == (match op {
            RegOp::Write(addr, v) => if addr == data_reg(board) {
                seq![v]
            } else {
                Seq::empty()
            },
            _ => Seq::empty(),
        }) + sent(board, ops),
{
    assert((seq![op] + ops).drop_first() =~= ops);
}

/// How [`puts_run`] goes on after it has looked at the flags.
proof fn lemma_puts_flags(board: Board, bytes: Seq<u8>, r: u32, w: u32, t: Seq<u32>)
    requires
        bytes.len() > 0,
    ensures
        puts_run(board, bytes, Seq::empty()) == RegRun::<()>::Wants(
            RegOp::Read(flag_reg(board)),
        ),
        r & FR_TXFF != 0 ==> puts_run(board, bytes, cons(r, t)) == puts_run(board, bytes, t),
        r & FR_TXFF == 0 ==> {
            &&& puts_run(board, bytes, cons(r, Seq::empty())) == RegRun::<()>::Wants(
                RegOp::Write(data_reg(board), bytes[0] as u32),
            )
            &&& puts_run(board, bytes, cons(r, cons(w, t))) == puts_run(
                board,
                bytes.drop_first(),
                t,
            )
        },
{
}

proof fn lemma_sent_waiting(board: Board, bytes: Seq<u8>, h: Seq<u32>)
    requires
        puts_run(board, bytes, h) is Finished,
    ensures
        sent(board, performed(|h: Seq<u32>| puts_run(board, bytes, h), h)) == bytes.map_values(
            |b: u8| b as u32,
        ),
    decreases h.len(), bytes.len(),
{
    let script = |h: Seq<u32>| puts_run(board, bytes, h);
    let goal = bytes.map_values(|b: u8| b as u32);
    if bytes.len() == 0 {
        assert(goal =~= Seq::empty());
    } else {
        let e = Seq::<u32>::empty();
        lemma_puts_flags(board, bytes, 0, 0, e);
        assert(h.len() > 0) by {
            if h.len() == 0 {
                assert(h =~= e);
            }
        }
        let r = h[0];
        let g = h.drop_first();
        assert(h =~= cons(r, g));
        let read = RegOp::Read(flag_reg(board));
        let mid = rest(script, r);
        lemma_puts_flags(board, bytes, r, 0, g);
        lemma_sent_cons(board, read, performed(mid, g));
        if r & FR_TXFF != 0 {
            assert forall|t: Seq<u32>| #[trigger] mid(t) == script(t) by {
                lemma_puts_flags(board, bytes, r, 0, t);
            }
            assert(mid =~= script);
            lemma_sent_waiting(board, bytes, g);
            assert(sent(board, performed(script, h)) =~= goal);
        } else {
            let write = RegOp::Write(data_reg(board), bytes[0] as u32);
            assert(g.len() > 0) by {
                if g.len() == 0 {
                    assert(g =~= e);
                }
            }
            let f = g.drop_first();
            assert(g =~= cons(g[0], f));
            let left = |h: Seq<u32>| puts_run(board, bytes.drop_first(), h);
            assert forall|t: Seq<u32>| #[trigger] rest(mid, g[0])(t) == left(t) by {
                lemma_puts_flags(board, bytes, r, g[0], t);
            }
            assert(rest(mid, g[0]) =~= left);
            lemma_puts_flags(board, bytes, r, g[0], f);
            lemma_sent_cons(board, write, performed(left, f));
            lemma_sent_waiting(board, bytes.drop_first(), f);
            assert(goal =~= seq![bytes[0] as u32] + bytes.drop_first().map_values(
                |b: u8| b as u32,
            ));
            assert(sent(board, performed(script, h)) =~= goal);
        }
    }
}

/// However long the line keeps it waiting, a text that was sent went out byte by byte
/// and in order, with nothing lost and nothing else in between.
pub proof fn lemma_text_is_sent(board: Board, text: Seq<u8>, h: Seq<u32>)
    requires
        puts_run(board, crlf(text), h) is Finished,
    ensures
        sent(board, performed(|h: Seq<u32>| puts_run(board, crlf(text), h), h)) == crlf(
            text,
        ).map_values(|b: u8| b as u32),
{
    lemma_sent_waiting(board, crlf(text), h);
}

// ── Receiving ──────────────────────────────────────────────────────────────

/// Waits until a byte has come in, and takes it.
pub open spec fn getc_run(board: Board, h: Seq<u32>) -> RegRun<u8>
    decreases h.len(),
{
    if h.len() == 0 {
        Run::Wants(RegOp::Read(flag_reg(board)))
    } else if h[0] & FR_RXFE != 0 {
        getc_run(board, h.drop_first())
    } else {
        receive_run(board, h.drop_first())
    }
}

/// Takes the byte that has come in.
pub open spec fn receive_run(board: Board, h: Seq<u32>) -> RegRun<u8> {
    op_run(RegOp::Read(data_reg(board)), h).and_then(
        |v: u32, h: Seq<u32>| Run::Finished((v % 0x100) as u8, h),
    )
}

/// Takes the byte that has come in; 0 where none has.
pub open spec fn getc_nonblocking_run(board: Board, h: Seq<u32>) -> RegRun<u8> {
    op_run(RegOp::Read(flag_reg(board)), h).and_then(
        |v: u32, h: Seq<u32>|
            if v & FR_RXFE != 0 {
                Run::Finished(0u8, h)
            } else {
                receive_run(board, h)
            },
    )
}

#[derive(Clone, Copy, PartialEq, Eq, Structural, Debug)]
enum GetStage {
    Wait,
    Receive,
    Done(u8),
}

/// The reception of a byte under way.
pub struct Getc {
    board: Board,
    blocking: bool,
    stage: GetStage,
}

impl Getc {
    /// What happens from here on.
    pub closed spec fn run(self, h: Seq<u32>) -> RegRun<u8> {
        match self.stage {
            GetStage::Wait => if self.blocking {
                getc_run(self.board, h)
            } else {
                getc_nonblocking_run(self.board, h)
            },
            GetStage::Receive => receive_run(self.board, h),
            GetStage::Done(c) => Run::Finished(c, h),
        }
    }

    pub fn next(&self) -> (r: Next<RegOp, u8>)
        ensures
            r == self.run(Seq::empty()).asks(),
            r matches Next::Done(v) ==> forall|h: Seq<u32>| #[trigger]
                self.run(h) == RegRun::Finished(v, h),
    {
        let base: u64 = get_data_reg(self.board);
        match self.stage {
            GetStage::Wait => Next::Op(RegOp::Read(base + 0x18)),
            GetStage::Receive => Next::Op(RegOp::Read(base)),
            GetStage::Done(c) => Next::Done(c),
        }
    }

    pub fn answer(&mut self, r: u32)
        requires
            old(self).run(Seq::empty()) is Wants,
        ensures
            forall|h: Seq<u32>|
                #![trigger final(self).run(h)]
                #![trigger old(self).run(cons(r, h))]
                final(self).run(h) == old(self).run(cons(r, h)),
    {
        match self.stage {
            GetStage::Wait => {
                if r & FR_RXFE == 0 {
                    self.stage = GetStage::Receive;
                } else if !self.blocking {
                    self.stage = GetStage::Done(0);
                }
            },
            GetStage::Receive => {
                self.stage = GetStage::Done((r % 0x100) as u8);
            },
            GetStage::Done(_) => {},
        }
    }
}

/// Receives a single byte, however long it takes.
pub fn getc(board: Board) -> (m: Getc)
    ensures
        forall|h: Seq<u32>| #[trigger] m.run(h) == getc_run(board, h),
{
    Getc { board, blocking: true, stage: GetStage::Wait }
}

/// Receives a single byte if one has come in; the value is 0 otherwise.
pub fn getc_nonblocking(board: Board) -> (m: Getc)
    ensures
        forall|h: Seq<u32>| #[trigger] m.run(h) == getc_nonblocking_run(board, h),
{
    Getc { board, blocking: false, stage: GetStage::Wait }
}

} // verus!
