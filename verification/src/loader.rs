//! Loading a file of the card into memory.
use vstd::prelude::*;
use crate::session::{Run, Next, cons, completes, performed, rest, lemma_completes_step};
use crate::fat32::{Fat32, FsOp, FsOpView, FsRun, Reply, ReadFile, reply_view, read_file_run, fat32_read_file, handed_out, find_entry};
use crate::volume::{delivered, lemma_delivered_cons, lemma_read_back, directory_in, linked, listed, readable, sectors, bytes_in};

verus! {

broadcast use crate::session::lemma_cons;

/// What loading a file wants done.
#[derive(PartialEq, Eq, Debug)]
pub enum LoadOp {
    /// Read a sector.
    Fs(FsOp),
    /// Store bytes at an address.
    Store(u64, Vec<u8>),
}

/// [`LoadOp`] with its bytes as a sequence.
pub enum LoadOpView {
    Fs(FsOpView),
    Store(int, Seq<u8>),
}

impl View for LoadOp {
    type V = LoadOpView;

    open spec fn view(&self) -> LoadOpView {
        match *self {
            LoadOp::Fs(op) => LoadOpView::Fs(op@),
            LoadOp::Store(addr, bytes) => LoadOpView::Store(addr as int, bytes@),
        }
    }
}

pub type LoadRun<T> = Run<LoadOpView, Reply, T>;

/// The reading of a file, with each chunk stored behind the one before it. `at` is
/// where the first one goes, `offset` how many bytes lie before it.
pub open spec fn placed(
    script: spec_fn(Seq<Reply>) -> FsRun<bool>,
    at: int,
    offset: int,
    h: Seq<Reply>,
) -> LoadRun<int> {
    let before = delivered(performed(script, h)).len();
    match script(h) {
        Run::Wants(FsOpView::Chunk(bytes)) => Run::Wants(LoadOpView::Store(at + before, bytes)),
        Run::Wants(op) => Run::Wants(LoadOpView::Fs(op)),
        Run::Finished(found, left) => Run::Finished(
            if found {
                offset + before
            } else {
                0
            },
            left,
        ),
    }
}

/// Loads a file to `dest`. The value is its size, or 0 where it could not be read.
pub open spec fn load_run(fs: Fat32, name83: Seq<u8>, dest: int, h: Seq<Reply>) -> LoadRun<int> {
    placed(|h: Seq<Reply>| read_file_run(fs, name83, h), dest, 0, h)
}

/// The loading of a file under way.
pub struct LoadFile {
    file: ReadFile,
    dest: u64,
    offset: u64,
}

impl LoadFile {
    pub closed spec fn wf(self) -> bool {
        &&& self.file.wf()
        &&& self.offset + self.file.to_come() <= u32::MAX
        &&& self.dest + u32::MAX <= u64::MAX
    }

    /// What happens from here on.
    pub closed spec fn run(self, h: Seq<Reply>) -> LoadRun<int> {
        placed(
            |h: Seq<Reply>| self.file.run(h),
            self.dest + self.offset,
            self.offset as int,
            h,
        )
    }

    /// The sector wanted next, the bytes to store, or the number of bytes loaded.
    pub fn next(&self) -> (r: Next<LoadOp, u64>)
        requires
            self.wf(),
        ensures
            match r {
                Next::Op(op) => self.run(Seq::empty()) == LoadRun::<int>::Wants(op@),
                Next::Done(n) => forall|h: Seq<Reply>| #[trigger]
                    self.run(h) == LoadRun::Finished(n as int, h),
            },
    {
        let ghost script = |h: Seq<Reply>| self.file.run(h);
        match self.file.next() {
            Next::Op(op) => match op {
                FsOp::Chunk(bytes) => Next::Op(LoadOp::Store(self.dest + self.offset, bytes)),
                FsOp::Sector(lba) => Next::Op(LoadOp::Fs(FsOp::Sector(lba))),
                FsOp::Print(text) => Next::Op(LoadOp::Fs(FsOp::Print(text))),
            },
            Next::Done(found) => {
                assert forall|h: Seq<Reply>| delivered(#[trigger] performed(script, h)).len() == 0 by {
                    let e = Seq::<Reply>::empty();
                    assert(self.file.run(e) == FsRun::Finished(found, e));
                    assert(script(e) == self.file.run(e));
                }
                if found {
                    Next::Done(self.offset)
                } else {
                    Next::Done(0)
                }
            },
        }
    }

    /// Goes on with the sector that was asked for; after bytes to store the argument
    /// does not matter.
    pub fn answer(&mut self, sector: Option<&[u8; 512]>)
        requires
            old(self).wf(),
            old(self).run(Seq::empty()) is Wants,
        ensures
            final(self).wf(),
            forall|h: Seq<Reply>|
                #![trigger final(self).run(h)]
                #![trigger old(self).run(cons(reply_view(sector), h))]
                final(self).run(h) == old(self).run(cons(reply_view(sector), h)),
    {
        let ghost before = *self;
        let ghost r = reply_view(sector);
        let ghost e = Seq::<Reply>::empty();
        let ghost script = |h: Seq<Reply>| before.file.run(h);
        assert(script(e) == before.file.run(e));
        let mut len: u64 = 0;
        if let Next::Op(FsOp::Chunk(bytes)) = self.file.next() {
            len = bytes.len() as u64;
        }
        assert(before.file.run(e) is Wants);
        assert(len == handed_out(before.file.run(e)).len());
        self.file.answer(sector);
        self.offset = self.offset + len;
        let ghost left = |h: Seq<Reply>| self.file.run(h);
        proof {
            let op = before.file.run(e)->Wants_0;
            assert forall|h: Seq<Reply>| #[trigger] rest(script, r)(h) == left(h) by {
                assert(self.file.run(h) == before.file.run(cons(r, h)));
            }
            assert(rest(script, r) =~= left);
            assert forall|h: Seq<Reply>|
                #![trigger self.run(h)]
                #![trigger before.run(cons(r, h))]
                self.run(h) == before.run(cons(r, h)) by {
                assert(self.file.run(h) == before.file.run(cons(r, h)));
                assert(performed(script, cons(r, h)) == seq![op] + performed(left, h));
                lemma_delivered_cons(op, performed(left, h));
            }
        }
    }
}

/// Loads a file of the root directory to an address. The value is the number of bytes
/// loaded, or 0 on failure.
pub fn load_file_to_addr(fs: Fat32, name83: &[u8; 11], dest: u64) -> (m: LoadFile)
    requires
        dest + u32::MAX <= u64::MAX,
    ensures
        m.wf(),
        forall|h: Seq<Reply>| #[trigger] m.run(h) == load_run(fs, name83@, dest as int, h),
{
    let file: ReadFile = fat32_read_file(fs, name83);
    let m = LoadFile { file, dest, offset: 0 };
    assert((|h: Seq<Reply>| m.file.run(h)) =~= (|h: Seq<Reply>| read_file_run(fs, name83@, h)));
    m
}

// ── What is in memory afterwards ───────────────────────────────────────────

pub type Memory = spec_fn(int) -> u8;

/// The memory with `bytes` at `at`.
pub open spec fn with_bytes(mem: Memory, at: int, bytes: Seq<u8>) -> Memory {
    |a: int|
        if at <= a < at + bytes.len() {
            bytes[a - at]
        } else {
            mem(a)
        }
}

/// The memory after some operations.
pub open spec fn after(mem: Memory, ops: Seq<LoadOpView>) -> Memory
    decreases ops.len(),
{
    if ops.len() == 0 {
        mem
    } else {
        after(
            match ops[0] {
                LoadOpView::Store(at, bytes) => with_bytes(mem, at, bytes),
                LoadOpView::Fs(_) => mem,
            },
            ops.drop_first(),
        )
    }
}

/// Whoever drives the loading reads the card `answers`; what is replied to a store is
/// what would be replied to the chunk.
pub open spec fn loads_from(
    answers: spec_fn(LoadOpView) -> Reply,
    card: spec_fn(FsOpView) -> Reply,
) -> bool {
    &&& forall|op: FsOpView| #[trigger] answers(LoadOpView::Fs(op)) == card(op)
    &&& forall|at: int, bytes: Seq<u8>| #[trigger]
        answers(LoadOpView::Store(at, bytes)) == card(FsOpView::Chunk(bytes))
}

/// Loading does what reading does, and leaves the bytes that were read in memory, one
/// after the other and nothing else.
pub proof fn lemma_placed(
    script: spec_fn(Seq<Reply>) -> FsRun<bool>,
    answers: spec_fn(LoadOpView) -> Reply,
    card: spec_fn(FsOpView) -> Reply,
    at: int,
    offset: int,
    h: Seq<Reply>,
    found: bool,
    mem: Memory,
)
    requires
        loads_from(answers, card),
        completes(script, card, h, found),
    ensures
        ({
            let load = |h: Seq<Reply>| placed(script, at, offset, h);
            let bytes = delivered(performed(script, h));
            &&& completes(
                load,
                answers,
                h,
                if found {
                    offset + bytes.len()
                } else {
                    0
                },
            )
            &&& after(mem, performed(load, h)) == with_bytes(mem, at, bytes)
        }),
    decreases h.len(),
{
    let load = |h: Seq<Reply>| placed(script, at, offset, h);
    let e = Seq::<Reply>::empty();
    if h.len() == 0 {
        assert(script(e) == FsRun::Finished(found, e));
        assert(delivered(performed(script, h)) =~= Seq::empty());
        assert forall|g: Seq<Reply>| #[trigger] load(g) == LoadRun::Finished(
            if found {
                offset
            } else {
                0
            },
            g,
        ) by {
            assert(script(g) == FsRun::Finished(found, g));
            assert(performed(script, g) =~= Seq::empty());
        }
        assert(performed(load, h) =~= Seq::empty());
        assert(after(mem, performed(load, h)) =~= with_bytes(mem, at, Seq::empty()));
    } else {
        let op = script(e)->Wants_0;
        let r = h[0];
        let g = h.drop_first();
        let left = rest(script, r);
        let handed = match op {
            FsOpView::Chunk(bytes) => bytes,
            _ => Seq::empty(),
        };
        let n = handed.len();
        let later = |h: Seq<Reply>| placed(left, at + n, offset + n, h);
        let first = match op {
            FsOpView::Chunk(bytes) => LoadOpView::Store(at, bytes),
            _ => LoadOpView::Fs(op),
        };
        let mem1 = match first {
            LoadOpView::Store(at, bytes) => with_bytes(mem, at, bytes),
            LoadOpView::Fs(_) => mem,
        };
        lemma_placed(left, answers, card, at + n, offset + n, g, found, mem1);
        let bytes = delivered(performed(left, g));
        lemma_delivered_cons(op, performed(left, g));
        assert(performed(script, e) =~= Seq::empty());
        assert(load(e) == LoadRun::<int>::Wants(first));
        assert forall|t: Seq<Reply>| #[trigger] later(t) == load(cons(answers(first), t)) by {
            assert(performed(script, cons(r, t)) == seq![op] + performed(left, t));
            lemma_delivered_cons(op, performed(left, t));
        }
        let v = if found {
            offset + n + bytes.len()
        } else {
            0
        };
        lemma_completes_step(load, later, answers, first, g, v);
        assert(cons(r, g) =~= h);
        assert((seq![first] + performed(later, g)).drop_first() =~= performed(later, g));
        assert(with_bytes(mem1, at + n, bytes) =~= with_bytes(mem, at, handed + bytes));
    }
}

/// A file that the card holds whole is loaded whole: afterwards its bytes lie in memory
/// from `dest` on, the rest of memory is as before, and the value is its size.
pub proof fn lemma_file_is_loaded(
    fs: Fat32,
    card: spec_fn(FsOpView) -> Reply,
    answers: spec_fn(LoadOpView) -> Reply,
    directory: Seq<u32>,
    name83: Seq<u8>,
    file: Seq<u32>,
    dest: int,
    mem: Memory,
) -> (h: Seq<Reply>)
    requires
        loads_from(answers, card),
        fs.ready,
        fs.sec_per_clus > 0,
        directory_in(fs, card, directory),
        directory[0] == fs.root_cluster,
        linked(fs, card, file),
        ({
            let found = find_entry(listed(fs, card, directory, 0), name83);
            &&& found matches Some(e)
            &&& file[0] == e.cluster
            &&& readable(fs, card, file, e.size as int)
            &&& e.size <= 512 * sectors(fs, file)
        }),
    ensures
        ({
            let e = find_entry(listed(fs, card, directory, 0), name83)->Some_0;
            let script = |h: Seq<Reply>| load_run(fs, name83, dest, h);
            &&& completes(script, answers, h, e.size as int)
            &&& after(mem, performed(script, h)) == with_bytes(
                mem,
                dest,
                bytes_in(fs, card, file, 0, e.size as int),
            )
        }),
{
    let h = lemma_read_back(fs, card, directory, name83, file);
    let read = |h: Seq<Reply>| read_file_run(fs, name83, h);
    lemma_placed(read, answers, card, dest, 0, h, true, mem);
    assert((|h: Seq<Reply>| placed(read, dest, 0, h)) =~= (|h: Seq<Reply>|
        load_run(fs, name83, dest, h)));
    h
}

} // verus!
