//! Key strokes from the guest, and the wait for it to become ready.
use vstd::prelude::*;
use crate::linux_vm::{SharedMem, SHMEM_MAGIC, pending};
use crate::session::{Run, Next, RegOp, cons, op_run, completes, performed, ends_with_device, lemma_completes_step, lemma_device_end, lemma_device_step};
use crate::text::{utf8, hex, push_str, push_hex, push_bytes};

verus! {

broadcast use crate::session::lemma_cons;

/// Takes the oldest key stroke, if the guest is ready and there is one.
pub fn poll_key(shm: &mut SharedMem) -> (key: Option<u8>)
    ensures
        old(shm).magic != SHMEM_MAGIC ==> key is None && *final(shm) == *old(shm),
        old(shm).magic == SHMEM_MAGIC ==> match key {
            None => pending(*old(shm)).len() == 0 && *final(shm) == *old(shm),
            Some(c) => {
                &&& pending(*old(shm)).len() > 0
                &&& c == pending(*old(shm))[0]
                &&& pending(*final(shm)) == pending(*old(shm)).drop_first()
                &&& *final(shm) == (SharedMem {
                    read_idx: old(shm).read_idx.wrapping_add(1),
                    ..*old(shm)
                })
            },
        },
{
    if !shm.is_ready() {
        return None;
    }
    shm.read_char()
}

// ── Waiting for the guest ──────────────────────────────────────────────────

/// Where core 1 leaves a mark on its way to the guest.
pub const ALIVE_ADDR: u64 = 0x0020_1000;
pub const ALIVE_MARK: u32 = 0xC001_0001;
/// The first word of the shared memory.
pub const MAGIC_ADDR: u64 = 0x0020_0000;
/// The pause between two looks: 100 ms.
pub const PAUSE_NOPS: u64 = 150_000;
/// Looks without success after which core 1's mark is reported.
pub const REPORT_AFTER: u32 = 30;
/// Looks without success that are borne.
pub const PATIENCE: u32 = 300;

/// What the wait wants done.
#[derive(PartialEq, Eq, Debug)]
pub enum WaitOp {
    Reg(RegOp),
    Print(Vec<u8>),
}

/// [`WaitOp`] with its text as a sequence.
pub enum WaitOpView {
    Reg(RegOp),
    Print(Seq<u8>),
}

impl View for WaitOp {
    type V = WaitOpView;

    open spec fn view(&self) -> WaitOpView {
        match *self {
            WaitOp::Reg(op) => WaitOpView::Reg(op),
            WaitOp::Print(text) => WaitOpView::Print(text@),
        }
    }
}

pub type WaitRun<T> = Run<WaitOpView, u32, T>;

pub open spec fn ready_text() -> Seq<u8> {
    utf8(" OK\n") + utf8("[kernel] USB HID: Linux driver VM ready, keyboard active\n")
}

pub open spec fn timeout_text() -> Seq<u8> {
    utf8(" timeout!\n") + utf8("[kernel] USB HID: Linux driver VM did not respond\n") + utf8(
        "[kernel] Falling back to UART-only mode\n",
    )
}

/// What core 1's mark says.
pub open spec fn alive_text(marker: u32) -> Seq<u8> {
    if marker == ALIVE_MARK {
        utf8("\n[kernel] Core 1: woke up and reached trampoline (marker=0x") + hex(
            marker as nat,
            8,
            true,
        ) + utf8(")\n[kernel] Core 1: Linux ERET fired — waiting for hid_daemon...\n")
    } else {
        utf8("\n[kernel] Core 1: DID NOT WAKE (marker=0x") + hex(marker as nat, 8, true) + utf8(
            ") — spin table not working\n",
        )
    }
}

/// Waits for the guest with `misses` looks without success behind it: looks at its
/// mark every 100 ms, prints a dot after every tenth look, reports on core 1 after the
/// thirtieth, and gives up after too many; there are never more than [`PATIENCE`]
/// behind it. The value says whether the guest is ready.
pub open spec fn wait_run(misses: nat, h: Seq<u32>) -> WaitRun<bool>
    decreases 302 - misses, 0nat,
{
    op_run(WaitOpView::Reg(RegOp::Read(MAGIC_ADDR)), h).and_then(
        |magic: u32, h: Seq<u32>|
            if magic == SHMEM_MAGIC {
                end_run(ready_text(), true, h)
            } else if misses > PATIENCE {
                Run::Finished(false, h)
            } else {
                pause_run((misses + 1) as nat, h)
            },
    )
}

/// Prints a last text and ends.
pub open spec fn end_run(text: Seq<u8>, ready: bool, h: Seq<u32>) -> WaitRun<bool> {
    op_run(WaitOpView::Print(text), h).and_then(
        |_r: u32, h: Seq<u32>| Run::Finished(ready, h),
    )
}

/// The pause after a look, the `misses`th without success.
pub open spec fn pause_run(misses: nat, h: Seq<u32>) -> WaitRun<bool>
    decreases 302 - misses, 3nat,
{
    op_run(WaitOpView::Reg(RegOp::Nops(PAUSE_NOPS)), h).and_then(
        |_r: u32, h: Seq<u32>|
            if misses % 10 == 0 {
                op_run(WaitOpView::Print(utf8(".")), h).and_then(
                    |_r: u32, h: Seq<u32>| alive_run(misses, h),
                )
            } else {
                alive_run(misses, h)
            },
    )
}

/// The report on core 1, if it is due.
pub open spec fn alive_run(misses: nat, h: Seq<u32>) -> WaitRun<bool>
    decreases 302 - misses, 2nat,
{
    if misses == REPORT_AFTER {
        op_run(WaitOpView::Reg(RegOp::Read(ALIVE_ADDR)), h).and_then(
            |marker: u32, h: Seq<u32>|
                op_run(WaitOpView::Print(alive_text(marker)), h).and_then(
                    |_r: u32, h: Seq<u32>| again_run(misses, h),
                ),
        )
    } else {
        again_run(misses, h)
    }
}

/// Looks again, or gives up.
pub open spec fn again_run(misses: nat, h: Seq<u32>) -> WaitRun<bool>
    decreases 302 - misses, 1nat,
{
    if misses > PATIENCE {
        end_run(timeout_text(), false, h)
    } else {
        wait_run(misses, h)
    }
}

fn get_ready_text() -> (out: Vec<u8>)
    ensures
        out@ == ready_text(),
{
    let mut out: Vec<u8> = Vec::new();
    push_str(&mut out, " OK\n");
    push_str(&mut out, "[kernel] USB HID: Linux driver VM ready, keyboard active\n");
    assert(out@ =~= ready_text());
    out
}

fn get_timeout_text() -> (out: Vec<u8>)
    ensures
        out@ == timeout_text(),
{
    let mut out: Vec<u8> = Vec::new();
    push_str(&mut out, " timeout!\n");
    push_str(&mut out, "[kernel] USB HID: Linux driver VM did not respond\n");
    push_str(&mut out, "[kernel] Falling back to UART-only mode\n");
    assert(out@ =~= timeout_text());
    out
}

fn get_alive_text(marker: u32) -> (out: Vec<u8>)
    ensures
        out@ == alive_text(marker),
{
    let mut out: Vec<u8> = Vec::new();
    if marker == ALIVE_MARK {
        push_str(&mut out, "\n[kernel] Core 1: woke up and reached trampoline (marker=0x");
        push_hex(&mut out, marker as u64, 8, true);
        push_str(
            &mut out,
            ")\n[kernel] Core 1: Linux ERET fired — waiting for hid_daemon...\n",
        );
    } else {
        push_str(&mut out, "\n[kernel] Core 1: DID NOT WAKE (marker=0x");
        push_hex(&mut out, marker as u64, 8, true);
        push_str(&mut out, ") — spin table not working\n");
    }
    assert(out@ =~= alive_text(marker));
    out
}

fn copy_bytes(bytes: &Vec<u8>) -> (out: Vec<u8>)
    ensures
        out@ == bytes@,
{
    let mut out: Vec<u8> = Vec::new();
    push_bytes(&mut out, bytes.as_slice());
    assert(out@ =~= bytes@);
    out
}

enum WaitStage {
    Look,
    Pause,
    Dot,
    Alive,
    Report(Vec<u8>),
    Last(Vec<u8>, bool),
    Done(bool),
}

/// The wait for the guest under way.
pub struct WaitReady {
    misses: u32,
    stage: WaitStage,
}

impl WaitReady {
    pub closed spec fn wf(self) -> bool {
        match self.stage {
            WaitStage::Look => self.misses <= PATIENCE,
            WaitStage::Dot => self.misses <= PATIENCE + 1,
            WaitStage::Alive | WaitStage::Report(_) => self.misses == REPORT_AFTER,
            _ => self.misses <= PATIENCE + 1,
        }
    }

    /// What happens from here on.
    pub closed spec fn run(self, h: Seq<u32>) -> WaitRun<bool> {
        let misses = self.misses as nat;
        match self.stage {
            WaitStage::Look => wait_run(misses, h),
            WaitStage::Pause => pause_run(misses, h),
            WaitStage::Dot => op_run(WaitOpView::Print(utf8(".")), h).and_then(
                |_r: u32, h: Seq<u32>| alive_run(misses, h),
            ),
            WaitStage::Alive => alive_run(misses, h),
            WaitStage::Report(text) => op_run(WaitOpView::Print(text@), h).and_then(
                |_r: u32, h: Seq<u32>| again_run(misses, h),
            ),
            WaitStage::Last(text, ready) => end_run(text@, ready, h),
            WaitStage::Done(ready) => Run::Finished(ready, h),
        }
    }

    /// What is wanted next, or whether the guest is ready.
    pub fn next(&self) -> (r: Next<WaitOp, bool>)
        requires
            self.wf(),
        ensures
            match r {
                Next::Op(op) => self.run(Seq::empty()) == WaitRun::<bool>::Wants(op@),
                Next::Done(v) => forall|h: Seq<u32>| #[trigger]
                    self.run(h) == WaitRun::Finished(v, h),
            },
    {
        match &self.stage {
            WaitStage::Look => Next::Op(WaitOp::Reg(RegOp::Read(MAGIC_ADDR))),
            WaitStage::Pause => Next::Op(WaitOp::Reg(RegOp::Nops(PAUSE_NOPS))),
            WaitStage::Dot => {
                let mut dot: Vec<u8> = Vec::new();
                push_str(&mut dot, ".");
                assert(dot@ =~= utf8("."));
                Next::Op(WaitOp::Print(dot))
            },
            WaitStage::Alive => Next::Op(WaitOp::Reg(RegOp::Read(ALIVE_ADDR))),
            WaitStage::Report(text) | WaitStage::Last(text, _) => Next::Op(
                WaitOp::Print(copy_bytes(text)),
            ),
            WaitStage::Done(ready) => Next::Done(*ready),
        }
    }

    /// The stage after a pause and its dot.
    fn after_pause(misses: u32) -> (stage: WaitStage)
        requires
            misses <= PATIENCE + 1,
        ensures
            (WaitReady { misses, stage }).wf(),
            forall|h: Seq<u32>| #[trigger]
                (WaitReady { misses, stage }).run(h) == alive_run(misses as nat, h),
    {
        if misses == REPORT_AFTER {
            WaitStage::Alive
        } else {
            WaitReady::after_report(misses)
        }
    }

    /// The stage after the report on core 1.
    fn after_report(misses: u32) -> (stage: WaitStage)
        requires
            misses <= PATIENCE + 1,
        ensures
            (WaitReady { misses, stage }).wf(),
            forall|h: Seq<u32>| #[trigger]
                (WaitReady { misses, stage }).run(h) == again_run(misses as nat, h),
    {
        if misses > PATIENCE {
            WaitStage::Last(get_timeout_text(), false)
        } else {
            WaitStage::Look
        }
    }

    /// Goes on with the word that was read; after anything else the argument does not
    /// matter.
    pub fn answer(&mut self, r: u32)
        requires
            old(self).wf(),
            old(self).run(Seq::empty()) is Wants,
        ensures
            final(self).wf(),
            forall|h: Seq<u32>|
                #![trigger final(self).run(h)]
                #![trigger old(self).run(cons(r, h))]
                final(self).run(h) == old(self).run(cons(r, h)),
    {
        match &self.stage {
            WaitStage::Look => {
                if r == SHMEM_MAGIC {
                    self.stage = WaitStage::Last(get_ready_text(), true);
                } else {
                    self.misses = self.misses + 1;
                    self.stage = WaitStage::Pause;
                }
            },
            WaitStage::Pause => {
                if self.misses % 10 == 0 {
                    self.stage = WaitStage::Dot;
                } else {
                    self.stage = WaitReady::after_pause(self.misses);
                }
            },
            WaitStage::Dot => {
                self.stage = WaitReady::after_pause(self.misses);
            },
            WaitStage::Alive => {
                self.stage = WaitStage::Report(get_alive_text(r));
            },
            WaitStage::Report(_) => {
                self.stage = WaitReady::after_report(self.misses);
            },
            WaitStage::Last(_, ready) => {
                self.stage = WaitStage::Done(*ready);
            },
            WaitStage::Done(_) => {},
        }
    }
}

/// Waits until the guest says that it is ready, for at most about 30 seconds.
pub fn wait_for_linux_ready() -> (m: WaitReady)
    ensures
        m.wf(),
        forall|h: Seq<u32>| #[trigger] m.run(h) == wait_run(0, h),
{
    WaitReady { misses: 0, stage: WaitStage::Look }
}

/// The wait always ends: after at most five operations for each look.
pub proof fn lemma_wait_ends(misses: nat, h: Seq<u32>)
    requires
        misses <= PATIENCE,
        h.len() >= 5 * (302 - misses),
    ensures
        wait_run(misses, h) is Finished,
    decreases 302 - misses,
{
    let h1 = h.drop_first();
    if h[0] != SHMEM_MAGIC {
        let m = misses + 1;
        let h2 = h1.drop_first();
        let h3 = if m % 10 == 0 {
            h2.drop_first()
        } else {
            h2
        };
        let h4 = if m == REPORT_AFTER {
            h3.drop_first().drop_first()
        } else {
            h3
        };
        if m <= PATIENCE {
            lemma_wait_ends(m, h4);
        }
        assert(again_run(m, h4) is Finished);
        assert(alive_run(m, h3) == again_run(m, h4));
        assert(pause_run(m, h1) == alive_run(m, h3));
    }
}

/// A guest that is ready at the first look is not kept waiting.
pub proof fn lemma_ready_at_once(answers: spec_fn(WaitOpView) -> u32) -> (h: Seq<u32>)
    requires
        answers(WaitOpView::Reg(RegOp::Read(MAGIC_ADDR))) == SHMEM_MAGIC,
    ensures
        completes(|h: Seq<u32>| wait_run(0, h), answers, h, true),
        performed(|h: Seq<u32>| wait_run(0, h), h) == seq![
            WaitOpView::Reg(RegOp::Read(MAGIC_ADDR)),
            WaitOpView::Print(ready_text()),
        ],
{
    let none = Seq::<u32>::empty();
    let look = WaitOpView::Reg(RegOp::Read(MAGIC_ADDR));
    let print = WaitOpView::Print(ready_text());
    let script = |h: Seq<u32>| wait_run(0, h);
    let mid = |h: Seq<u32>| end_run(ready_text(), true, h);
    let last = |h: Seq<u32>| WaitRun::Finished(true, h);
    lemma_completes_step(mid, last, answers, print, none, true);
    let g = cons(answers(print), none);
    lemma_completes_step(script, mid, answers, look, g, true);
    assert(performed(last, none) =~= Seq::empty());
    assert(performed(script, cons(SHMEM_MAGIC, g)) =~= seq![look, print]);
    cons(SHMEM_MAGIC, g)
}

// ── Waiting for a key ──────────────────────────────────────────────────────

/// What the wait for a key wants done.
#[derive(Clone, Copy, PartialEq, Eq, Structural, Debug)]
pub enum KeyOp {
    /// [`poll_key`]; the reply is its result.
    Poll,
    /// Take a byte from the UART without waiting; no byte is replied as `Some(0)` or
    /// `None`.
    Uart,
    /// Let other work go first.
    Yield,
}

pub type KeyRun = Run<KeyOp, Option<u8>, u8>;

/// Polls until there is a key.
pub open spec fn read_char_run(h: Seq<Option<u8>>) -> KeyRun
    decreases h.len(),
{
    if h.len() == 0 {
        Run::Wants(KeyOp::Poll)
    } else {
        match h[0] {
            Some(c) => Run::Finished(c, h.drop_first()),
            None => if h.len() == 1 {
                Run::Wants(KeyOp::Yield)
            } else {
                read_char_run(h.drop_first().drop_first())
            },
        }
    }
}

/// The UART has delivered a byte.
pub open spec fn uart_key(reply: Option<u8>) -> bool {
    reply matches Some(c) && c != 0
}

/// Tries the guest first and the UART second, until one of them has a key.
pub open spec fn any_key_run(h: Seq<Option<u8>>) -> KeyRun
    decreases h.len(),
{
    if h.len() == 0 {
        Run::Wants(KeyOp::Poll)
    } else {
        match h[0] {
            Some(c) => Run::Finished(c, h.drop_first()),
            None => any_key_uart_run(h.drop_first()),
        }
    }
}

/// The part of [`any_key_run`] from the UART on.
pub open spec fn any_key_uart_run(h: Seq<Option<u8>>) -> KeyRun
    decreases h.len(),
{
    if h.len() == 0 {
        Run::Wants(KeyOp::Uart)
    } else if uart_key(h[0]) {
        Run::Finished(h[0]->Some_0, h.drop_first())
    } else if h.len() == 1 {
        Run::Wants(KeyOp::Yield)
    } else {
        any_key_run(h.drop_first().drop_first())
    }
}

#[derive(Clone, Copy, PartialEq, Eq, Structural, Debug)]
enum KeyStage {
    Poll,
    Uart,
    Yield,
    Done(u8),
}

/// The wait for a key under way.
pub struct GetKey {
    uart: bool,
    stage: KeyStage,
}

impl GetKey {
    pub closed spec fn wf(self) -> bool {
        self.stage == KeyStage::Uart ==> self.uart
    }

    /// What happens from here on.
    pub closed spec fn run(self, h: Seq<Option<u8>>) -> KeyRun {
        match self.stage {
            KeyStage::Poll => if self.uart {
                any_key_run(h)
            } else {
                read_char_run(h)
            },
            KeyStage::Uart => any_key_uart_run(h),
            KeyStage::Yield => if h.len() == 0 {
                Run::Wants(KeyOp::Yield)
            } else if self.uart {
                any_key_run(h.drop_first())
            } else {
                read_char_run(h.drop_first())
            },
            KeyStage::Done(c) => Run::Finished(c, h),
        }
    }

    pub fn next(&self) -> (r: Next<KeyOp, u8>)
        requires
            self.wf(),
        ensures
            r == self.run(Seq::empty()).asks(),
            r matches Next::Done(v) ==> forall|h: Seq<Option<u8>>| #[trigger]
                self.run(h) == KeyRun::Finished(v, h),
    {
        match self.stage {
            KeyStage::Poll => Next::Op(KeyOp::Poll),
            KeyStage::Uart => Next::Op(KeyOp::Uart),
            KeyStage::Yield => Next::Op(KeyOp::Yield),
            KeyStage::Done(c) => Next::Done(c),
        }
    }

    pub fn answer(&mut self, r: Option<u8>)
        requires
            old(self).wf(),
            old(self).run(Seq::empty()) is Wants,
        ensures
            final(self).wf(),
            forall|h: Seq<Option<u8>>|
                #![trigger final(self).run(h)]
                #![trigger old(self).run(cons(r, h))]
                final(self).run(h) == old(self).run(cons(r, h)),
    {
        match self.stage {
            KeyStage::Poll => match r {
                Some(c) => {
                    self.stage = KeyStage::Done(c);
                },
                None => {
                    self.stage = if self.uart {
                        KeyStage::Uart
                    } else {
                        KeyStage::Yield
                    };
                },
            },
            KeyStage::Uart => {
                self.stage = KeyStage::Yield;
                if let Some(c) = r {
                    if c != 0 {
                        self.stage = KeyStage::Done(c);
                    }
                }
            },
            KeyStage::Yield => {
                self.stage = KeyStage::Poll;
            },
            KeyStage::Done(_) => {},
        }
    }
}

/// Waits for a key from the guest.
pub fn read_char_blocking() -> (m: GetKey)
    ensures
        m.wf(),
        forall|h: Seq<Option<u8>>| #[trigger] m.run(h) == read_char_run(h),
{
    GetKey { uart: false, stage: KeyStage::Poll }
}

/// Waits for a key from the guest or the UART.
pub fn getc() -> (m: GetKey)
    ensures
        m.wf(),
        forall|h: Seq<Option<u8>>| #[trigger] m.run(h) == any_key_run(h),
{
    GetKey { uart: true, stage: KeyStage::Poll }
}

// ── A guest that takes its time ────────────────────────────────────────────

/// A guest that is ready when it has been looked at `ready_after` times, the mark that
/// core 1 has left, and what the wait has done so far.
pub struct Guest {
    pub looks: int,
    pub nops: int,
    pub shown: Seq<u8>,
}

pub open spec fn guest(ready_after: int, mark: u32) -> spec_fn(Guest, WaitOpView) -> (u32, Guest) {
    |s: Guest, op: WaitOpView|
        match op {
            WaitOpView::Reg(RegOp::Read(a)) => if a == 0x0020_0000 {
                (
                    if s.looks >= ready_after {
                        0xAA55_AA55u32
                    } else {
                        0u32
                    },
                    Guest { looks: s.looks + 1, ..s },
                )
            } else if a == 0x0020_1000 {
                (mark, s)
            } else {
                (0u32, s)
            },
            WaitOpView::Reg(RegOp::Nops(n)) => (0u32, Guest { nops: s.nops + n, ..s }),
            WaitOpView::Reg(_) => (0u32, s),
            WaitOpView::Print(text) => (0u32, Guest { shown: s.shown + text, ..s }),
        }
}

/// What is shown after the `n`th look in vain: a dot after every tenth, and what core 1's
/// mark says after the thirtieth.
pub open spec fn progress(n: int, mark: u32) -> Seq<u8> {
    (if n % 10 == 0 {
        utf8(".")
    } else {
        Seq::empty()
    }) + (if n == 30 {
        alive_text(mark)
    } else {
        Seq::empty()
    })
}

/// What is shown from the look in vain after the `n`th on to the `m`th.
pub open spec fn progress_to(n: int, m: int, mark: u32) -> Seq<u8>
    decreases m - n,
{
    if n >= m {
        Seq::empty()
    } else {
        progress(n + 1, mark) + progress_to(n + 1, m, mark)
    }
}

proof fn lemma_last_words(k: int, mark: u32, s: Guest, text: Seq<u8>, ready: bool)
    ensures
        ends_with_device(
            |h: Seq<u32>| end_run(text, ready, h),
            guest(k, mark),
            s,
            ready,
            (Guest { shown: s.shown + text, ..s }),
        ),
{
    let script = |h: Seq<u32>| end_run(text, ready, h);
    let end = |h: Seq<u32>| WaitRun::<bool>::Finished(ready, h);
    let t = Guest { shown: s.shown + text, ..s };
    lemma_device_end(end, guest(k, mark), t, ready);
    assert forall|g: Seq<u32>| #[trigger] end(g) == script(cons(0, g)) by {}
    lemma_device_step(script, end, guest(k, mark), WaitOpView::Print(text), s, ready, t);
}

/// The report on core 1, if it is due, and what comes after it.
proof fn lemma_report(k: int, mark: u32, s: Guest, misses: nat, v: bool, t: Guest)
    requires
        misses <= 301,
        ends_with_device(
            |h: Seq<u32>| again_run(misses, h),
            guest(k, mark),
            (Guest {
                shown: s.shown + (if misses == 30 {
                    alive_text(mark)
                } else {
                    Seq::empty()
                }),
                ..s
            }),
            v,
            t,
        ),
    ensures
        ends_with_device(|h: Seq<u32>| alive_run(misses, h), guest(k, mark), s, v, t),
{
    let device = guest(k, mark);
    let script = |h: Seq<u32>| alive_run(misses, h);
    let again = |h: Seq<u32>| again_run(misses, h);
    if misses == 30 {
        let look = WaitOpView::Reg(RegOp::Read(0x0020_1000));
        let print = WaitOpView::Print(alive_text(mark));
        let mid = |h: Seq<u32>|
            op_run(print, h).and_then(|_r: u32, h: Seq<u32>| again_run(misses, h));
        let s1 = Guest { shown: s.shown + alive_text(mark), ..s };
        assert forall|g: Seq<u32>| #[trigger] again(g) == mid(cons(0, g)) by {}
        lemma_device_step(mid, again, device, print, s, v, t);
        assert forall|g: Seq<u32>| #[trigger] mid(g) == script(cons(mark, g)) by {}
        lemma_device_step(script, mid, device, look, s, v, t);
    } else {
        assert(s.shown + Seq::<u8>::empty() =~= s.shown);
        assert(script =~= again);
    }
}

/// The pause after a look in vain, and what comes after it.
proof fn lemma_pause(k: int, mark: u32, s: Guest, misses: nat, v: bool, t: Guest)
    requires
        misses <= 301,
        ends_with_device(
            |h: Seq<u32>| again_run(misses, h),
            guest(k, mark),
            (Guest {
                nops: s.nops + 150_000,
                shown: s.shown + progress(misses as int, mark),
                ..s
            }),
            v,
            t,
        ),
    ensures
        ends_with_device(|h: Seq<u32>| pause_run(misses, h), guest(k, mark), s, v, t),
{
    let device = guest(k, mark);
    let script = |h: Seq<u32>| pause_run(misses, h);
    let report = |h: Seq<u32>| alive_run(misses, h);
    let pause = WaitOpView::Reg(RegOp::Nops(150_000));
    let s1 = Guest { nops: s.nops + 150_000, ..s };
    if misses % 10 == 0 {
        let dot = WaitOpView::Print(utf8("."));
        let s2 = Guest { shown: s1.shown + utf8("."), ..s1 };
        let more = if misses == 30 {
            alive_text(mark)
        } else {
            Seq::empty()
        };
        assert(s1.shown + utf8(".") + more =~= s1.shown + (utf8(".") + more));
        lemma_report(k, mark, s2, misses, v, t);
        let mid = |h: Seq<u32>|
            op_run(dot, h).and_then(|_r: u32, h: Seq<u32>| alive_run(misses, h));
        assert forall|g: Seq<u32>| #[trigger] report(g) == mid(cons(0, g)) by {}
        lemma_device_step(mid, report, device, dot, s1, v, t);
        assert forall|g: Seq<u32>| #[trigger] mid(g) == script(cons(0, g)) by {}
        lemma_device_step(script, mid, device, pause, s, v, t);
    } else {
        assert(progress(misses as int, mark) =~= Seq::<u8>::empty());
        lemma_report(k, mark, s1, misses, v, t);
        assert forall|g: Seq<u32>| #[trigger] report(g) == script(cons(0, g)) by {}
        lemma_device_step(script, report, device, pause, s, v, t);
    }
}

proof fn lemma_guest_from(k: int, mark: u32, s: Guest, misses: nat) -> (t: Guest)
    requires
        misses <= 300,
        s.looks == misses,
        misses <= k,
    ensures
        ends_with_device(
            |h: Seq<u32>| wait_run(misses, h),
            guest(k, mark),
            s,
            k <= 300,
            t,
        ),
        ({
            let n = if k <= 300 {
                k
            } else {
                301
            };
            &&& t.nops == s.nops + 150_000 * (n - misses)
            &&& t.shown == s.shown + progress_to(misses as int, n, mark) + (if k <= 300 {
                ready_text()
            } else {
                timeout_text()
            })
        }),
    decreases 301 - misses,
{
    let device = guest(k, mark);
    let script = |h: Seq<u32>| wait_run(misses, h);
    let look = WaitOpView::Reg(RegOp::Read(0x0020_0000));
    let s1 = Guest { looks: s.looks + 1, ..s };
    let v = k <= 300;
    if misses == k {
        let t = Guest { shown: s1.shown + ready_text(), ..s1 };
        let end = |h: Seq<u32>| end_run(ready_text(), true, h);
        lemma_last_words(k, mark, s1, ready_text(), true);
        assert forall|g: Seq<u32>| #[trigger] end(g) == script(cons(0xAA55_AA55, g)) by {}
        lemma_device_step(script, end, device, look, s, v, t);
        assert(s.shown + progress_to(misses as int, k, mark) =~= s.shown);
        t
    } else {
        let m = misses + 1;
        let s2 = Guest {
            nops: s1.nops + 150_000,
            shown: s1.shown + progress(m as int, mark),
            ..s1
        };
        let again = |h: Seq<u32>| again_run(m, h);
        let n: int = if k <= 300 {
            k
        } else {
            301
        };
        let more = progress_to(m as int, n, mark);
        let words = if k <= 300 {
            ready_text()
        } else {
            timeout_text()
        };
        assert(s.shown + progress(m as int, mark) + more + words =~= s.shown + (progress(
            m as int,
            mark,
        ) + more) + words);
        let pause = |h: Seq<u32>| pause_run(m, h);
        let t = if m > 300 {
            let t = Guest { shown: s2.shown + timeout_text(), ..s2 };
            lemma_last_words(k, mark, s2, timeout_text(), false);
            assert(again =~= (|h: Seq<u32>| end_run(timeout_text(), false, h)));
            assert(s2.shown + more =~= s2.shown);
            t
        } else {
            let t = lemma_guest_from(k, mark, s2, m);
            assert(again =~= (|h: Seq<u32>| wait_run(m, h)));
            t
        };
        lemma_pause(k, mark, s1, m, v, t);
        assert forall|g: Seq<u32>| #[trigger] pause(g) == script(cons(0, g)) by {}
        lemma_device_step(script, pause, device, look, s, v, t);
        t
    }
}

/// A guest that is ready after at most 300 looks in vain is waited for, and one that
/// takes longer is given up; there are 150,000 instructions between two looks. What is
/// shown tells how the wait goes and how it ends.
pub proof fn lemma_guest_is_awaited(ready_after: nat, mark: u32, s: Guest) -> (t: Guest)
    requires
        s.looks == 0,
    ensures
        ends_with_device(
            |h: Seq<u32>| wait_run(0, h),
            guest(ready_after as int, mark),
            s,
            ready_after <= 300,
            t,
        ),
        ready_after <= 300 ==> {
            &&& t.nops == s.nops + 150_000 * ready_after
            &&& t.shown == s.shown + progress_to(0, ready_after as int, mark) + (utf8(" OK\n")
                + utf8("[kernel] USB HID: Linux driver VM ready, keyboard active\n"))
        },
        ready_after > 300 ==> {
            &&& t.nops == s.nops + 150_000 * 301
            &&& t.shown == s.shown + progress_to(0, 301, mark) + (utf8(" timeout!\n") + utf8(
                "[kernel] USB HID: Linux driver VM did not respond\n",
            ) + utf8("[kernel] Falling back to UART-only mode\n"))
        },
{
    lemma_guest_from(ready_after as int, mark, s, 0)
}

// ── Where keys come from ───────────────────────────────────────────────────

/// The keys to come: those that the guest hands over and those on the UART, each after so
/// many polls in vain; and how often other work was let go first.
pub struct Keys {
    pub guest: Seq<u8>,
    pub guest_late: nat,
    pub uart: Seq<u8>,
    pub uart_late: nat,
    pub yields: int,
}

pub open spec fn one_less(n: nat) -> nat {
    if n > 0 {
        (n - 1) as nat
    } else {
        0
    }
}

/// Each poll takes the oldest key of its source if it is there; `nothing` is how the UART
/// says that it has none.
pub open spec fn keyboards(nothing: Option<u8>) -> spec_fn(Keys, KeyOp) -> (Option<u8>, Keys) {
    |s: Keys, op: KeyOp|
        match op {
            KeyOp::Poll => if s.guest.len() > 0 && s.guest_late == 0 {
                (Some(s.guest[0]), Keys { guest: s.guest.drop_first(), ..s })
            } else {
                (None, Keys { guest_late: one_less(s.guest_late), ..s })
            },
            KeyOp::Uart => if s.uart.len() > 0 && s.uart_late == 0 {
                (Some(s.uart[0]), Keys { uart: s.uart.drop_first(), ..s })
            } else {
                (nothing, Keys { uart_late: one_less(s.uart_late), ..s })
            },
            KeyOp::Yield => (None, Keys { yields: s.yields + 1, ..s }),
        }
}

/// Waiting for the guest alone gives its oldest key, however late, and lets other work
/// go first between any two polls.
pub proof fn lemma_guest_key_is_awaited(nothing: Option<u8>, s: Keys) -> (t: Keys)
    requires
        s.guest.len() > 0,
    ensures
        ends_with_device(
            |h: Seq<Option<u8>>| read_char_run(h),
            keyboards(nothing),
            s,
            s.guest[0],
            t,
        ),
        t.guest == s.guest.drop_first(),
        t.uart == s.uart,
        t.yields == s.yields + s.guest_late,
    decreases s.guest_late,
{
    let device = keyboards(nothing);
    let script = |h: Seq<Option<u8>>| read_char_run(h);
    let c = s.guest[0];
    if s.guest_late == 0 {
        let t = Keys { guest: s.guest.drop_first(), ..s };
        let end = |h: Seq<Option<u8>>| KeyRun::Finished(c, h);
        lemma_device_end(end, device, t, c);
        assert forall|g: Seq<Option<u8>>| #[trigger] end(g) == script(cons(Some(c), g)) by {}
        lemma_device_step(script, end, device, KeyOp::Poll, s, c, t);
        t
    } else {
        let s1 = Keys { guest_late: one_less(s.guest_late), ..s };
        let s2 = Keys { yields: s.yields + 1, ..s1 };
        let none = None::<u8>;
        let t = lemma_guest_key_is_awaited(nothing, s2);
        let mid = |h: Seq<Option<u8>>| read_char_run(cons(none, h));
        assert forall|g: Seq<Option<u8>>| #[trigger] script(g) == mid(cons(none, g)) by {
            assert(cons(none, cons(none, g)).drop_first() == cons(none, g));
        }
        lemma_device_step(mid, script, device, KeyOp::Yield, s1, c, t);
        lemma_device_step(script, mid, device, KeyOp::Poll, s, c, t);
        t
    }
}

/// Waiting for any key gives the one that comes first; where both come in the same
/// round, it is the guest's, and the other one is left.
pub proof fn lemma_first_key_is_taken(nothing: Option<u8>, s: Keys) -> (t: Keys)
    requires
        s.guest.len() > 0 || s.uart.len() > 0,
        forall|i: int| 0 <= i < s.uart.len() ==> #[trigger] s.uart[i] != 0,
        nothing == None::<u8> || nothing == Some(0u8),
    ensures
        ({
            let guest_first = s.uart.len() == 0 || (s.guest.len() > 0 && s.guest_late
                <= s.uart_late);
            &&& ends_with_device(
                |h: Seq<Option<u8>>| any_key_run(h),
                keyboards(nothing),
                s,
                if guest_first {
                    s.guest[0]
                } else {
                    s.uart[0]
                },
                t,
            )
            &&& guest_first ==> t.guest == s.guest.drop_first() && t.uart == s.uart
            &&& !guest_first ==> t.uart == s.uart.drop_first() && t.guest == s.guest
        }),
    decreases s.guest_late + s.uart_late,
{
    let device = keyboards(nothing);
    let script = |h: Seq<Option<u8>>| any_key_run(h);
    let guest_first = s.uart.len() == 0 || (s.guest.len() > 0 && s.guest_late <= s.uart_late);
    let c = if guest_first {
        s.guest[0]
    } else {
        s.uart[0]
    };
    let none = None::<u8>;
    if s.guest.len() > 0 && s.guest_late == 0 {
        let t = Keys { guest: s.guest.drop_first(), ..s };
        let end = |h: Seq<Option<u8>>| KeyRun::Finished(c, h);
        lemma_device_end(end, device, t, c);
        assert forall|g: Seq<Option<u8>>| #[trigger] end(g) == script(cons(Some(c), g)) by {}
        lemma_device_step(script, end, device, KeyOp::Poll, s, c, t);
        t
    } else {
        let s1 = Keys { guest_late: one_less(s.guest_late), ..s };
        let uart = |h: Seq<Option<u8>>| any_key_uart_run(h);
        assert forall|g: Seq<Option<u8>>| #[trigger] uart(g) == script(cons(none, g)) by {}
        if s.uart.len() > 0 && s.uart_late == 0 {
            let t = Keys { uart: s.uart.drop_first(), ..s1 };
            assert(s.uart[0] != 0);
            let end = |h: Seq<Option<u8>>| KeyRun::Finished(c, h);
            lemma_device_end(end, device, t, c);
            assert forall|g: Seq<Option<u8>>| #[trigger] end(g) == uart(cons(Some(c), g)) by {}
            lemma_device_step(uart, end, device, KeyOp::Uart, s1, c, t);
            lemma_device_step(script, uart, device, KeyOp::Poll, s, c, t);
            t
        } else {
            let s2 = Keys { uart_late: one_less(s1.uart_late), ..s1 };
            let s3 = Keys { yields: s2.yields + 1, ..s2 };
            let t = lemma_first_key_is_taken(nothing, s3);
            let mid = |h: Seq<Option<u8>>| any_key_uart_run(cons(nothing, h));
            assert forall|g: Seq<Option<u8>>| #[trigger] script(g) == mid(cons(none, g)) by {
                assert(cons(nothing, cons(none, g)).drop_first() == cons(none, g));
            }
            assert(mid(Seq::empty()) == KeyRun::Wants(KeyOp::Yield));
            lemma_device_step(mid, script, device, KeyOp::Yield, s2, c, t);
            lemma_device_step(uart, mid, device, KeyOp::Uart, s1, c, t);
            lemma_device_step(script, uart, device, KeyOp::Poll, s, c, t);
            t
        }
    }
}

} // verus!
