//! Showing a file of the card: the command `cat`.
use vstd::prelude::*;
use crate::session::{Run, Next, cons, completes, performed, rest, lemma_completes_step};
use crate::fat32::{Fat32, FsOp, FsOpView, FsRun, Reply, ReadFile, reply_view, read_file_run, fat32_read_file, handed_out, find_entry};
use crate::volume::{delivered, lemma_delivered_cons, lemma_read_back, lemma_missing_file, directory_in, linked, listed, readable, sectors, bytes_in};
use crate::commands::{CAT_MAX, cat_chunk, cat_part, cat_head, cat_tail, get_cat_head, get_cat_tail, lemma_cat_chunks, at_most, without_cr};
use crate::uart::crlf;

verus! {

broadcast use crate::session::lemma_cons;

/// What showing a file wants done.
#[derive(PartialEq, Eq, Debug)]
pub enum CatOp {
    /// Read a sector.
    Fs(FsOp),
    /// Print text.
    Print(Vec<u8>),
    /// Send bytes of the file as they are, and show their characters.
    Show(Vec<u8>),
}

/// [`CatOp`] with its bytes as a sequence.
pub enum CatOpView {
    Fs(FsOpView),
    Print(Seq<u8>),
    Show(Seq<u8>),
}

impl View for CatOp {
    type V = CatOpView;

    open spec fn view(&self) -> CatOpView {
        match *self {
            CatOp::Fs(op) => CatOpView::Fs(op@),
            CatOp::Print(text) => CatOpView::Print(text@),
            CatOp::Show(bytes) => CatOpView::Show(bytes@),
        }
    }
}

pub type CatRun = Run<CatOpView, Reply, ()>;

/// The reading of a file, with what there is to show of each chunk shown, and the
/// closing line. `shown` bytes were shown before.
pub open spec fn displayed(
    script: spec_fn(Seq<Reply>) -> FsRun<bool>,
    args: Seq<char>,
    shown: int,
    h: Seq<Reply>,
) -> CatRun {
    match script(h) {
        Run::Wants(FsOpView::Chunk(bytes)) => {
            let before = cat_part(shown, delivered(performed(script, h)));
            Run::Wants(CatOpView::Show(cat_part(shown + before.len(), bytes)))
        },
        Run::Wants(op) => Run::Wants(CatOpView::Fs(op)),
        Run::Finished(found, left) => if left.len() == 0 {
            Run::Wants(CatOpView::Print(cat_tail(found, args)))
        } else {
            Run::Finished((), left.drop_first())
        },
    }
}

/// Shows the file stored as `name83`, which was typed as `args`: a heading, the file,
/// a closing line.
pub open spec fn cat_run(fs: Fat32, name83: Seq<u8>, args: Seq<char>, h: Seq<Reply>) -> CatRun {
    if h.len() == 0 {
        Run::Wants(CatOpView::Print(cat_head(args)))
    } else {
        displayed(|h: Seq<Reply>| read_file_run(fs, name83, h), args, 0, h.drop_first())
    }
}

#[derive(Clone, Copy, PartialEq, Eq, Structural)]
enum CatStage {
    Head,
    File,
    Done,
}

/// The showing of a file under way.
pub struct CatFile {
    file: ReadFile,
    args: String,
    shown: usize,
    stage: CatStage,
}

impl CatFile {
    pub closed spec fn wf(self) -> bool {
        self.file.wf() && self.shown <= CAT_MAX
    }

    /// What happens from here on.
    pub closed spec fn run(self, h: Seq<Reply>) -> CatRun {
        let script = |h: Seq<Reply>| self.file.run(h);
        match self.stage {
            CatStage::Head => if h.len() == 0 {
                Run::Wants(CatOpView::Print(cat_head(self.args@)))
            } else {
                displayed(script, self.args@, self.shown as int, h.drop_first())
            },
            CatStage::File => displayed(script, self.args@, self.shown as int, h),
            CatStage::Done => Run::Finished((), h),
        }
    }

    /// What is wanted next.
    pub fn next(&self) -> (r: Next<CatOp, ()>)
        requires
            self.wf(),
        ensures
            match r {
                Next::Op(op) => self.run(Seq::empty()) == CatRun::Wants(op@),
                Next::Done(v) => forall|h: Seq<Reply>| #[trigger]
                    self.run(h) == CatRun::Finished(v, h),
            },
    {
        let ghost script = |h: Seq<Reply>| self.file.run(h);
        let ghost e = Seq::<Reply>::empty();
        match self.stage {
            CatStage::Head => Next::Op(CatOp::Print(get_cat_head(self.args.as_str()))),
            CatStage::Done => Next::Done(()),
            CatStage::File => match self.file.next() {
                Next::Op(op) => match op {
                    FsOp::Chunk(bytes) => {
                        let mut shown: usize = self.shown;
                        assert(cat_part(self.shown as int, delivered(performed(script, e))).len()
                            == 0);
                        Next::Op(CatOp::Show(cat_chunk(&mut shown, bytes.as_slice())))
                    },
                    FsOp::Sector(lba) => Next::Op(CatOp::Fs(FsOp::Sector(lba))),
                    FsOp::Print(text) => Next::Op(CatOp::Fs(FsOp::Print(text))),
                },
                Next::Done(found) => {
                    assert(self.file.run(e) == FsRun::Finished(found, e));
                    Next::Op(CatOp::Print(get_cat_tail(found, self.args.as_str())))
                },
            },
        }
    }

    /// Goes on with the sector that was asked for; after anything else the argument
    /// does not matter.
    pub fn answer(&mut self, sector: Option<&[u8; 512]>)
        requires
            old(self).wf(),
            old(self).run(Seq::empty()) is Wants,
        ensures
            final(self).wf(),
            forall|h: Seq<Reply>|
                #![trigger final(self).run(h)]
                #![trigger old(self).run(cons(reply_view(sector), h))]
                final(self).run(h) == old(self).run(cons(reply_view(sector), h)),
    {
        let ghost before = *self;
        let ghost r = reply_view(sector);
        let ghost e = Seq::<Reply>::empty();
        let ghost script = |h: Seq<Reply>| before.file.run(h);
        match self.stage {
            CatStage::Head => {
                self.stage = CatStage::File;
                return;
            },
            CatStage::Done => {
                return;
            },
            CatStage::File => {},
        }
        let mut shown: usize = self.shown;
        match self.file.next() {
            Next::Done(found) => {
                self.stage = CatStage::Done;
                assert forall|h: Seq<Reply>|
                    #![trigger self.run(h)]
                    #![trigger before.run(cons(r, h))]
                    self.run(h) == before.run(cons(r, h)) by {
                    assert(before.file.run(cons(r, h)) == FsRun::Finished(found, cons(r, h)));
                }
                return;
            },
            Next::Op(FsOp::Chunk(bytes)) => {
                let _shown = cat_chunk(&mut shown, bytes.as_slice());
            },
            Next::Op(_) => {},
        }
        let ghost handed = handed_out(before.file.run(e));
        assert(script(e) == before.file.run(e));
        assert(shown == before.shown + cat_part(before.shown as int, handed).len()) by {
            if !(before.file.run(e)->Wants_0 is Chunk) {
                assert(without_cr(handed) =~= Seq::empty());
            }
        }
        self.file.answer(sector);
        self.shown = shown;
        let ghost left = |h: Seq<Reply>| self.file.run(h);
        proof {
            let op = before.file.run(e)->Wants_0;
            assert forall|h: Seq<Reply>| #[trigger] rest(script, r)(h) == left(h) by {
                assert(self.file.run(h) == before.file.run(cons(r, h)));
            }
            assert(rest(script, r) =~= left);
            assert forall|h: Seq<Reply>|
                #![trigger self.run(h)]
                #![trigger before.run(cons(r, h))]
                self.run(h) == before.run(cons(r, h)) by {
                assert(self.file.run(h) == before.file.run(cons(r, h)));
                assert(performed(script, cons(r, h)) == seq![op] + performed(left, h));
                lemma_delivered_cons(op, performed(left, h));
                lemma_cat_chunks(before.shown as int, handed, delivered(performed(left, h)));
            }
        }
    }
}

/// Shows the file that is stored as `name83` and was typed as `args`.
pub fn cat_file(fs: Fat32, name83: &[u8; 11], args: String) -> (m: CatFile)
    ensures
        m.wf(),
        forall|h: Seq<Reply>| #[trigger] m.run(h) == cat_run(fs, name83@, args@, h),
{
    let file: ReadFile = fat32_read_file(fs, name83);
    let m = CatFile { file, args, shown: 0, stage: CatStage::Head };
    assert((|h: Seq<Reply>| m.file.run(h)) =~= (|h: Seq<Reply>| read_file_run(fs, name83@, h)));
    m
}

// ── What goes over the line ────────────────────────────────────────────────

/// The bytes that some operations send.
pub open spec fn sent(ops: Seq<CatOpView>) -> Seq<u8>
    decreases ops.len(),
{
    if ops.len() == 0 {
        Seq::empty()
    } else {
        sent_by(ops[0]) + sent(ops.drop_first())
    }
}

/// Text is sent with its line feeds expanded, the file as it is.
pub open spec fn sent_by(op: CatOpView) -> Seq<u8> {
    match op {
        CatOpView::Fs(_) => Seq::empty(),
        CatOpView::Print(text) => crlf(text),
        CatOpView::Show(bytes) => bytes,
    }
}

/// Whoever drives the procedure reads from `card`, and always replies the same to what
/// is shown, as to a chunk.
pub open spec fn shows_from(
    answers: spec_fn(CatOpView) -> Reply,
    card: spec_fn(FsOpView) -> Reply,
) -> bool {
    &&& forall|op: FsOpView| #[trigger] answers(CatOpView::Fs(op)) == card(op)
    &&& forall|part: Seq<u8>, chunk: Seq<u8>| #[trigger]
        answers(CatOpView::Show(part)) == #[trigger] card(FsOpView::Chunk(chunk))
}

proof fn lemma_sent_cons(op: CatOpView, ops: Seq<CatOpView>)
    ensures
        sent(seq![op] + ops) == sent_by(op) + sent(ops),
{
    assert((seq![op] + ops).drop_first() =~= ops);
}

/// The closing line.
proof fn lemma_closing(
    script: spec_fn(Seq<Reply>) -> FsRun<bool>,
    answers: spec_fn(CatOpView) -> Reply,
    args: Seq<char>,
    shown: int,
    found: bool,
) -> (h: Seq<Reply>)
    requires
        forall|g: Seq<Reply>| #[trigger] script(g) == FsRun::Finished(found, g),
    ensures
        completes(|h: Seq<Reply>| displayed(script, args, shown, h), answers, h, ()),
        sent(performed(|h: Seq<Reply>| displayed(script, args, shown, h), h)) == crlf(
            cat_tail(found, args),
        ),
{
    let show = |h: Seq<Reply>| displayed(script, args, shown, h);
    let e = Seq::<Reply>::empty();
    let op = CatOpView::Print(cat_tail(found, args));
    let left = |h: Seq<Reply>| CatRun::Finished((), h);
    assert(script(e) == FsRun::Finished(found, e));
    assert forall|g: Seq<Reply>| #[trigger] left(g) == show(cons(answers(op), g)) by {
        assert(script(cons(answers(op), g)) == FsRun::Finished(found, cons(answers(op), g)));
    }
    lemma_completes_step(show, left, answers, op, e, ());
    assert(performed(left, e) =~= Seq::empty());
    lemma_sent_cons(op, Seq::empty());
    assert(crlf(cat_tail(found, args)) + Seq::<u8>::empty() =~= crlf(cat_tail(found, args)));
    cons(answers(op), e)
}

/// Showing does what reading does, and sends what there is to show of the file and the
/// closing line.
pub proof fn lemma_displayed(
    script: spec_fn(Seq<Reply>) -> FsRun<bool>,
    answers: spec_fn(CatOpView) -> Reply,
    card: spec_fn(FsOpView) -> Reply,
    args: Seq<char>,
    shown: int,
    h: Seq<Reply>,
    found: bool,
) -> (all: Seq<Reply>)
    requires
        shows_from(answers, card),
        completes(script, card, h, found),
        0 <= shown <= CAT_MAX,
    ensures
        ({
            let show = |h: Seq<Reply>| displayed(script, args, shown, h);
            let bytes = delivered(performed(script, h));
            &&& completes(show, answers, all, ())
            &&& sent(performed(show, all)) == cat_part(shown, bytes) + crlf(cat_tail(found, args))
        }),
    decreases h.len(),
{
    let show = |h: Seq<Reply>| displayed(script, args, shown, h);
    let e = Seq::<Reply>::empty();
    let tail = crlf(cat_tail(found, args));
    if h.len() == 0 {
        assert(delivered(performed(script, h)) =~= Seq::empty());
        assert(cat_part(shown, Seq::empty()) + tail =~= tail);
        lemma_closing(script, answers, args, shown, found)
    } else {
        let op = script(e)->Wants_0;
        let r = h[0];
        let g = h.drop_first();
        let left = rest(script, r);
        let handed = match op {
            FsOpView::Chunk(bytes) => bytes,
            _ => Seq::empty(),
        };
        assert(performed(script, e) =~= Seq::empty());
        assert(cat_part(shown, delivered(performed(script, e))).len() == 0);
        let part = cat_part(shown, handed);
        let first = match op {
            FsOpView::Chunk(bytes) => CatOpView::Show(part),
            _ => CatOpView::Fs(op),
        };
        let n = shown + part.len();
        let later = |h: Seq<Reply>| displayed(left, args, n, h);
        let more = lemma_displayed(left, answers, card, args, n, g, found);
        let bytes = delivered(performed(left, g));
        lemma_delivered_cons(op, performed(left, g));
        lemma_cat_chunks(shown, handed, bytes);
        if !(op is Chunk) {
            assert(part =~= Seq::empty());
        }
        assert(show(e) == CatRun::Wants(first));
        assert(answers(first) == r);
        assert forall|t: Seq<Reply>| #[trigger] later(t) == show(cons(answers(first), t)) by {
            assert(performed(script, cons(r, t)) == seq![op] + performed(left, t));
            lemma_delivered_cons(op, performed(left, t));
            lemma_cat_chunks(shown, handed, delivered(performed(left, t)));
        }
        lemma_completes_step(show, later, answers, first, more, ());
        lemma_sent_cons(first, performed(later, more));
        assert(part + (cat_part(n, bytes) + tail) =~= part + cat_part(n, bytes) + tail);
        cons(answers(first), more)
    }
}

/// The heading, and then the rest.
proof fn lemma_heading(
    fs: Fat32,
    answers: spec_fn(CatOpView) -> Reply,
    card: spec_fn(FsOpView) -> Reply,
    name83: Seq<u8>,
    args: Seq<char>,
    h: Seq<Reply>,
    found: bool,
) -> (all: Seq<Reply>)
    requires
        shows_from(answers, card),
        completes(|h: Seq<Reply>| read_file_run(fs, name83, h), card, h, found),
    ensures
        ({
            let script = |h: Seq<Reply>| cat_run(fs, name83, args, h);
            let bytes = delivered(performed(|h: Seq<Reply>| read_file_run(fs, name83, h), h));
            &&& completes(script, answers, all, ())
            &&& sent(performed(script, all)) == crlf(cat_head(args)) + cat_part(0, bytes) + crlf(
                cat_tail(found, args),
            )
        }),
{
    let script = |h: Seq<Reply>| cat_run(fs, name83, args, h);
    let read = |h: Seq<Reply>| read_file_run(fs, name83, h);
    let op = CatOpView::Print(cat_head(args));
    let left = |h: Seq<Reply>| displayed(read, args, 0, h);
    let more = lemma_displayed(read, answers, card, args, 0, h, found);
    lemma_completes_step(script, left, answers, op, more, ());
    lemma_sent_cons(op, performed(left, more));
    let bytes = delivered(performed(read, h));
    let tail = crlf(cat_tail(found, args));
    assert(crlf(cat_head(args)) + (cat_part(0, bytes) + tail) =~= crlf(cat_head(args)) + cat_part(
        0,
        bytes,
    ) + tail);
    cons(answers(op), more)
}

/// Showing a file that the card holds whole sends the heading, the first 2048 bytes of
/// the file that are no carriage returns, as they are, and the closing line.
pub proof fn lemma_file_is_shown(
    fs: Fat32,
    card: spec_fn(FsOpView) -> Reply,
    answers: spec_fn(CatOpView) -> Reply,
    directory: Seq<u32>,
    name83: Seq<u8>,
    args: Seq<char>,
    file: Seq<u32>,
) -> (h: Seq<Reply>)
    requires
        shows_from(answers, card),
        fs.ready,
        fs.sec_per_clus > 0,
        directory_in(fs, card, directory),
        directory[0] == fs.root_cluster,
        linked(fs, card, file),
        ({
            let found = find_entry(listed(fs, card, directory, 0), name83);
            &&& found matches Some(e)
            &&& file[0] == e.cluster
            &&& readable(fs, card, file, e.size as int)
            &&& e.size <= 512 * sectors(fs, file)
        }),
    ensures
        ({
            let e = find_entry(listed(fs, card, directory, 0), name83)->Some_0;
            let script = |h: Seq<Reply>| cat_run(fs, name83, args, h);
            let body = without_cr(bytes_in(fs, card, file, 0, e.size as int));
            &&& completes(script, answers, h, ())
            &&& sent(performed(script, h)) == crlf(cat_head(args)) + at_most(body, 2048) + crlf(
                cat_tail(true, args),
            )
        }),
{
    let h = lemma_read_back(fs, card, directory, name83, file);
    lemma_heading(fs, answers, card, name83, args, h, true)
}

/// Where the root directory has no such file, the closing line says so.
pub proof fn lemma_missing_file_is_named(
    fs: Fat32,
    card: spec_fn(FsOpView) -> Reply,
    answers: spec_fn(CatOpView) -> Reply,
    directory: Seq<u32>,
    name83: Seq<u8>,
    args: Seq<char>,
) -> (h: Seq<Reply>)
    requires
        shows_from(answers, card),
        fs.ready,
        fs.sec_per_clus > 0,
        directory_in(fs, card, directory),
        directory[0] == fs.root_cluster,
        find_entry(listed(fs, card, directory, 0), name83) is None,
    ensures
        ({
            let script = |h: Seq<Reply>| cat_run(fs, name83, args, h);
            &&& completes(script, answers, h, ())
            &&& sent(performed(script, h)) == crlf(cat_head(args)) + crlf(cat_tail(false, args))
        }),
{
    let h = lemma_missing_file(fs, card, directory, name83);
    let all = lemma_heading(fs, answers, card, name83, args, h, false);
    assert(cat_part(0, Seq::empty()) =~= Seq::empty());
    assert(crlf(cat_head(args)) + Seq::<u8>::empty() =~= crlf(cat_head(args)));
    all
}

} // verus!
