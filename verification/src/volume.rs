//! What a card with a FAT32 volume gives back.
//!
//! A card is given by how it answers: `answers` maps each operation of the file
//! system to its reply, so `answers(FsOpView::Sector(lba))` is the contents of a
//! sector, or `None` where it cannot be read.
use vstd::prelude::*;
use vstd::arithmetic::div_mod::lemma_fundamental_div_mod_converse;
use crate::session::{Run, completes, performed, rest, cons, lemma_completes_step, lemma_completes_and_then};
use crate::fat32::{Fat32, FsOpView, FsRun, Reply, DirEntryView, END_OF_CHAIN, data_sector, fat_sector, next_cluster, entries_from, directory_ends, chunk_len, walk_run, root_dir_run, file_run, chunk_run, find_entry, read_file_run, read_found_run, list_root_run, list_files_debug_run, infos_up_to, debug_text, mbr_partition, mbr_text, vbr_volume, vbr_text, with_partition, read_failed_text, init_run, init_vbr_run, print_run};

verus! {

broadcast use crate::session::lemma_cons;

pub type Card = spec_fn(FsOpView) -> Reply;

// ── Chains of clusters ─────────────────────────────────────────────────────

/// The table's entry for a cluster.
pub open spec fn link(fs: Fat32, answers: Card, cluster: u32) -> int {
    next_cluster(answers(FsOpView::Sector(fat_sector(fs, cluster))), cluster)
}

/// The table leads from the cluster at `i` to the next one.
pub open spec fn linked_at(fs: Fat32, answers: Card, chain: Seq<u32>, i: int) -> bool {
    link(fs, answers, chain[i]) == chain[i + 1] && chain[i + 1] < END_OF_CHAIN
}

/// The clusters of `chain` follow each other in the table.
pub open spec fn linked(fs: Fat32, answers: Card, chain: Seq<u32>) -> bool {
    &&& chain.len() > 0
    &&& forall|i: int| 0 <= i < chain.len() - 1 ==> #[trigger] linked_at(fs, answers, chain, i)
}

/// No cluster follows the last one of `chain`.
pub open spec fn ended(fs: Fat32, answers: Card, chain: Seq<u32>) -> bool {
    link(fs, answers, chain.last()) >= END_OF_CHAIN
}

/// The number of sectors in the clusters of `chain`.
pub open spec fn sectors(fs: Fat32, chain: Seq<u32>) -> int {
    chain.len() * fs.sec_per_clus
}

/// Where sector `k` of what is stored in `chain` lies.
pub open spec fn chain_sector(fs: Fat32, chain: Seq<u32>, k: int) -> u32 {
    data_sector(fs, chain[k / fs.sec_per_clus as int], (k % fs.sec_per_clus as int) as u32)
}

/// Sector `k` of what is stored in `chain`, as the card gives it.
pub open spec fn stored(fs: Fat32, answers: Card, chain: Seq<u32>, k: int) -> Reply {
    answers(FsOpView::Sector(chain_sector(fs, chain, k)))
}

/// Sector `s` of the cluster at `c` is sector `c * sec_per_clus + s` of the whole.
proof fn lemma_chain_sector(fs: Fat32, chain: Seq<u32>, c: int, s: u32)
    requires
        0 <= c < chain.len(),
        s < fs.sec_per_clus,
    ensures
        chain_sector(fs, chain, c * fs.sec_per_clus + s) == data_sector(fs, chain[c], s),
        0 <= c * fs.sec_per_clus + s < sectors(fs, chain),
{
    let spc = fs.sec_per_clus as int;
    lemma_fundamental_div_mod_converse(c * spc + s, spc, c, s as int);
    assert(0 <= c * spc && c * spc + spc <= chain.len() * spc) by (nonlinear_arith)
        requires
            0 <= c < chain.len(),
            0 < spc,
    ;
}

// ── The root directory ─────────────────────────────────────────────────────

/// The walk through a directory stops in this sector.
pub open spec fn stops(sector: Reply) -> bool {
    match sector {
        None => true,
        Some(s) => directory_ends(s),
    }
}

/// The visible entries of the directory stored in `chain`, from its sector `k` on.
pub open spec fn listed(fs: Fat32, answers: Card, chain: Seq<u32>, k: int) -> Seq<DirEntryView>
    decreases sectors(fs, chain) - k,
{
    if k >= sectors(fs, chain) {
        Seq::empty()
    } else {
        match stored(fs, answers, chain, k) {
            None => Seq::empty(),
            Some(s) => if directory_ends(s) {
                entries_from(s, 0)
            } else {
                entries_from(s, 0) + listed(fs, answers, chain, k + 1)
            },
        }
    }
}

/// `chain` holds the whole directory: it ends with the chain, or in one of its
/// sectors.
pub open spec fn directory_in(fs: Fat32, answers: Card, chain: Seq<u32>) -> bool {
    &&& linked(fs, answers, chain)
    &&& ended(fs, answers, chain) || exists|k: int|
        0 <= k < sectors(fs, chain) && #[trigger] stops(stored(fs, answers, chain, k))
}

/// The operations are all reads.
pub open spec fn only_reads(ops: Seq<FsOpView>) -> bool {
    forall|i: int| 0 <= i < ops.len() ==> #[trigger] ops[i] is Sector
}

proof fn lemma_walk(
    fs: Fat32,
    answers: Card,
    chain: Seq<u32>,
    c: int,
    s: u32,
    found: Seq<DirEntryView>,
) -> (h: Seq<Reply>)
    requires
        fs.sec_per_clus > 0,
        linked(fs, answers, chain),
        0 <= c < chain.len(),
        s <= fs.sec_per_clus,
        ended(fs, answers, chain) || exists|k: int|
            c * fs.sec_per_clus + s <= k < sectors(fs, chain) && #[trigger] stops(
                stored(fs, answers, chain, k),
            ),
    ensures
        completes(
            |h: Seq<Reply>| walk_run(fs, chain[c], s, found, h),
            answers,
            h,
            found + listed(fs, answers, chain, c * fs.sec_per_clus + s),
        ),
        only_reads(performed(|h: Seq<Reply>| walk_run(fs, chain[c], s, found, h), h)),
    decreases chain.len() - c, fs.sec_per_clus - s,
{
    let spc = fs.sec_per_clus as int;
    let k = c * spc + s;
    let script = |h: Seq<Reply>| walk_run(fs, chain[c], s, found, h);
    let none = Seq::<Reply>::empty();
    if s < fs.sec_per_clus {
        lemma_chain_sector(fs, chain, c, s);
        let op = FsOpView::Sector(data_sector(fs, chain[c], s));
        let r = answers(op);
        assert(r == stored(fs, answers, chain, k));
        if stops(r) {
            let all = found + listed(fs, answers, chain, k);
            let left = |h: Seq<Reply>| FsRun::Finished(all, h);
            assert(found + Seq::<DirEntryView>::empty() =~= found);
            lemma_completes_step(script, left, answers, op, none, all);
            assert(performed(left, none) =~= Seq::empty());
            cons(r, none)
        } else {
            let more = found + entries_from(r->Some_0, 0);
            let left = |h: Seq<Reply>| walk_run(fs, chain[c], (s + 1) as u32, more, h);
            let g = lemma_walk(fs, answers, chain, c, (s + 1) as u32, more);
            assert(more + listed(fs, answers, chain, k + 1) =~= found + listed(
                fs,
                answers,
                chain,
                k,
            ));
            lemma_completes_step(
                script,
                left,
                answers,
                op,
                g,
                found + listed(fs, answers, chain, k),
            );
            cons(r, g)
        }
    } else {
        let op = FsOpView::Sector(fat_sector(fs, chain[c]));
        let r = answers(op);
        assert(k == (c + 1) * spc) by (nonlinear_arith)
            requires
                k == c * spc + spc,
        ;
        if c == chain.len() - 1 {
            let all = found + listed(fs, answers, chain, k);
            assert(all =~= found);
            let left = |h: Seq<Reply>| FsRun::Finished(all, h);
            lemma_completes_step(script, left, answers, op, none, all);
            assert(performed(left, none) =~= Seq::empty());
            cons(r, none)
        } else {
            assert(linked_at(fs, answers, chain, c));
            let left = |h: Seq<Reply>| walk_run(fs, chain[c + 1], 0, found, h);
            let g = lemma_walk(fs, answers, chain, c + 1, 0, found);
            lemma_completes_step(
                script,
                left,
                answers,
                op,
                g,
                found + listed(fs, answers, chain, k),
            );
            cons(r, g)
        }
    }
}

/// Walking the root directory finds the visible entries of the directory stored in
/// the chain that starts at the root cluster, in the order in which they are stored,
/// and only reads.
pub proof fn lemma_root_directory(fs: Fat32, answers: Card, chain: Seq<u32>) -> (h: Seq<Reply>)
    requires
        fs.ready,
        fs.sec_per_clus > 0,
        directory_in(fs, answers, chain),
        chain[0] == fs.root_cluster,
    ensures
        completes(
            |h: Seq<Reply>| root_dir_run(fs, h),
            answers,
            h,
            listed(fs, answers, chain, 0),
        ),
        only_reads(performed(|h: Seq<Reply>| root_dir_run(fs, h), h)),
{
    let none = Seq::<DirEntryView>::empty();
    assert(0 * fs.sec_per_clus as int + 0 == 0);
    let h = lemma_walk(fs, answers, chain, 0, 0, none);
    assert(none + listed(fs, answers, chain, 0) =~= listed(fs, answers, chain, 0));
    assert((|h: Seq<Reply>| root_dir_run(fs, h)) =~= (|h: Seq<Reply>|
        walk_run(fs, chain[0], 0, none, h)));
    h
}

/// Listing the root directory gives the first `max` visible entries of the directory,
/// or all where there are no more, in their order and in readable form; the diagnostic
/// listing prints them all.
pub proof fn lemma_listing(fs: Fat32, answers: Card, chain: Seq<u32>, max: int) -> (h: Seq<Reply>)
    requires
        0 <= max,
        fs.ready,
        fs.sec_per_clus > 0,
        directory_in(fs, answers, chain),
        chain[0] == fs.root_cluster,
    ensures
        completes(
            |h: Seq<Reply>| list_root_run(fs, max, h),
            answers,
            h,
            infos_up_to(listed(fs, answers, chain, 0), max),
        ),
        infos_up_to(listed(fs, answers, chain, 0), max).len() <= max,
        completes(
            |h: Seq<Reply>| list_files_debug_run(fs, h),
            answers,
            h,
            debug_text(listed(fs, answers, chain, 0)),
        ),
{
    let es = listed(fs, answers, chain, 0);
    let none = Seq::<Reply>::empty();
    let walk = |h: Seq<Reply>| root_dir_run(fs, h);
    let infos = |es: Seq<DirEntryView>, h: Seq<Reply>| FsRun::Finished(infos_up_to(es, max), h);
    let text = |es: Seq<DirEntryView>, h: Seq<Reply>| FsRun::Finished(debug_text(es), h);
    let h = lemma_root_directory(fs, answers, chain);
    assert(h + none =~= h);
    lemma_completes_and_then(walk, infos, answers, h, es, none, infos_up_to(es, max));
    assert((|h: Seq<Reply>| walk(h).and_then(infos)) =~= (|h: Seq<Reply>|
        list_root_run(fs, max, h)));
    lemma_completes_and_then(walk, text, answers, h, es, none, debug_text(es));
    assert((|h: Seq<Reply>| walk(h).and_then(text)) =~= (|h: Seq<Reply>|
        list_files_debug_run(fs, h)));
    h
}

// ── Files ──────────────────────────────────────────────────────────────────

/// The bytes handed out by a procedure.
pub open spec fn delivered(ops: Seq<FsOpView>) -> Seq<u8>
    decreases ops.len(),
{
    if ops.len() == 0 {
        Seq::empty()
    } else {
        (match ops[0] {
            FsOpView::Chunk(bytes) => bytes,
            _ => Seq::empty(),
        }) + delivered(ops.drop_first())
    }
}

/// Byte `i` of what is stored in `chain`.
pub open spec fn byte_at(fs: Fat32, answers: Card, chain: Seq<u32>, i: int) -> u8 {
    stored(fs, answers, chain, i / 512)->Some_0[i % 512]
}

/// The bytes of what is stored in `chain` from `from` up to `to`.
pub open spec fn bytes_in(fs: Fat32, answers: Card, chain: Seq<u32>, from: int, to: int) -> Seq<
    u8,
> {
    Seq::new((to - from) as nat, |i: int| byte_at(fs, answers, chain, from + i))
}

/// The first `n` bytes of what is stored in `chain` can be read.
pub open spec fn readable(fs: Fat32, answers: Card, chain: Seq<u32>, n: int) -> bool {
    forall|k: int|
        0 <= k < sectors(fs, chain) && 512 * k < n ==> (#[trigger] stored(
            fs,
            answers,
            chain,
            k,
        ) matches Some(sector) && sector.len() == 512)
}

/// As much of a file of `size` bytes as the clusters of `chain` hold.
pub open spec fn held(fs: Fat32, chain: Seq<u32>, size: int) -> int {
    if size <= 512 * sectors(fs, chain) {
        size
    } else {
        512 * sectors(fs, chain)
    }
}

pub proof fn lemma_delivered_cons(op: FsOpView, ops: Seq<FsOpView>)
    ensures
        delivered(seq![op] + ops) == (match op {
            FsOpView::Chunk(bytes) => bytes,
            _ => Seq::empty(),
        }) + delivered(ops),
{
    assert((seq![op] + ops).drop_first() =~= ops);
}

proof fn lemma_delivered_reads(reads: Seq<FsOpView>, ops: Seq<FsOpView>)
    requires
        only_reads(reads),
    ensures
        delivered(reads + ops) == delivered(ops),
    decreases reads.len(),
{
    if reads.len() == 0 {
        assert(reads + ops =~= ops);
    } else {
        assert((reads + ops).drop_first() =~= reads.drop_first() + ops);
        assert((reads + ops)[0] == reads[0]);
        lemma_delivered_reads(reads.drop_first(), ops);
        assert(Seq::<u8>::empty() + delivered(ops) =~= delivered(ops));
    }
}

/// Reads one sector of a file and hands out its bytes.
proof fn lemma_file_sector(
    fs: Fat32,
    answers: Card,
    cluster: u32,
    s: u32,
    remaining: u32,
    g: Seq<Reply>,
    v: bool,
) -> (h: Seq<Reply>)
    requires
        s < fs.sec_per_clus,
        remaining > 0,
        answers(FsOpView::Sector(data_sector(fs, cluster, s))) is Some,
        ({
            let less = (remaining - chunk_len(remaining as int)) as u32;
            let left = |h: Seq<Reply>| file_run(fs, cluster, (s + 1) as u32, less, h);
            completes(left, answers, g, v)
        }),
    ensures
        ({
            let script = |h: Seq<Reply>| file_run(fs, cluster, s, remaining, h);
            let less = (remaining - chunk_len(remaining as int)) as u32;
            let left = |h: Seq<Reply>| file_run(fs, cluster, (s + 1) as u32, less, h);
            let sector = answers(FsOpView::Sector(data_sector(fs, cluster, s)))->Some_0;
            &&& completes(script, answers, h, v)
            &&& delivered(performed(script, h)) == sector.take(chunk_len(remaining as int))
                + delivered(performed(left, g))
        }),
{
    let n = chunk_len(remaining as int);
    let op = FsOpView::Sector(data_sector(fs, cluster, s));
    let r = answers(op);
    let sector = r->Some_0;
    let chunk = FsOpView::Chunk(sector.take(n));
    let less = (remaining - n) as u32;
    let script = |h: Seq<Reply>| file_run(fs, cluster, s, remaining, h);
    let mid = |h: Seq<Reply>| chunk_run(fs, cluster, s, remaining, sector, h);
    let left = |h: Seq<Reply>| file_run(fs, cluster, (s + 1) as u32, less, h);
    let m = cons(answers(chunk), g);
    lemma_completes_step(mid, left, answers, chunk, g, v);
    lemma_completes_step(script, mid, answers, op, m, v);
    lemma_delivered_cons(chunk, performed(left, g));
    lemma_delivered_cons(op, performed(mid, m));
    assert(delivered(performed(script, cons(r, m))) =~= sector.take(n) + delivered(
        performed(left, g),
    ));
    cons(r, m)
}

/// The bytes from sector `k` on are those of that sector and those that follow.
proof fn lemma_bytes_from_sector(
    fs: Fat32,
    answers: Card,
    chain: Seq<u32>,
    k: int,
    remaining: int,
)
    requires
        0 <= k < sectors(fs, chain),
        remaining > 0,
        stored(fs, answers, chain, k) matches Some(sector) && sector.len() == 512,
    ensures
        ({
            let n = chunk_len(remaining);
            let next = 512 * (k + 1);
            bytes_in(fs, answers, chain, 512 * k, held(fs, chain, 512 * k + remaining))
                == stored(fs, answers, chain, k)->Some_0.take(n) + bytes_in(
                fs,
                answers,
                chain,
                next,
                held(fs, chain, next + remaining - n),
            )
        }),
{
    let n = chunk_len(remaining);
    let next = 512 * (k + 1);
    let sector = stored(fs, answers, chain, k)->Some_0;
    let all = bytes_in(fs, answers, chain, 512 * k, held(fs, chain, 512 * k + remaining));
    let later = bytes_in(fs, answers, chain, next, held(fs, chain, next + remaining - n));
    assert forall|i: int| 0 <= i < n implies #[trigger] all[i] == sector[i] by {
        assert((512 * k + i) / 512 == k && (512 * k + i) % 512 == i);
    }
    assert(all =~= sector.take(n) + later);
}

proof fn lemma_file(
    fs: Fat32,
    answers: Card,
    chain: Seq<u32>,
    c: int,
    s: u32,
    remaining: u32,
) -> (h: Seq<Reply>)
    requires
        fs.sec_per_clus > 0,
        linked(fs, answers, chain),
        0 <= c < chain.len(),
        s <= fs.sec_per_clus,
        ({
            let size = 512 * (c * fs.sec_per_clus + s) + remaining;
            &&& readable(fs, answers, chain, size)
            &&& size > 512 * sectors(fs, chain) ==> ended(fs, answers, chain)
        }),
    ensures
        ({
            let from = 512 * (c * fs.sec_per_clus + s);
            let script = |h: Seq<Reply>| file_run(fs, chain[c], s, remaining, h);
            &&& completes(script, answers, h, from + remaining <= 512 * sectors(fs, chain))
            &&& delivered(performed(script, h)) == bytes_in(
                fs,
                answers,
                chain,
                from,
                held(fs, chain, from + remaining),
            )
        }),
    decreases remaining, chain.len() - c,
{
    let spc = fs.sec_per_clus as int;
    let k = c * spc + s;
    let from = 512 * k;
    let full = from + remaining <= 512 * sectors(fs, chain);
    let goal = bytes_in(fs, answers, chain, from, held(fs, chain, from + remaining));
    let script = |h: Seq<Reply>| file_run(fs, chain[c], s, remaining, h);
    let none = Seq::<Reply>::empty();
    assert(0 <= k <= (c + 1) * spc <= sectors(fs, chain)) by (nonlinear_arith)
        requires
            k == c * spc + s,
            0 <= c,
            s <= spc,
            c + 1 <= chain.len(),
            spc > 0,
            sectors(fs, chain) == chain.len() * spc,
    ;
    if s < fs.sec_per_clus {
        lemma_chain_sector(fs, chain, c, s);
        if remaining == 0 {
            assert(delivered(performed(script, none)) =~= goal);
            none
        } else {
            let n = chunk_len(remaining as int);
            assert(answers(FsOpView::Sector(data_sector(fs, chain[c], s))) == stored(
                fs,
                answers,
                chain,
                k,
            ));
            let g = lemma_file(fs, answers, chain, c, (s + 1) as u32, (remaining - n) as u32);
            lemma_bytes_from_sector(fs, answers, chain, k, remaining as int);
            lemma_file_sector(fs, answers, chain[c], s, remaining, g, full)
        }
    } else {
        let op = FsOpView::Sector(fat_sector(fs, chain[c]));
        let r = answers(op);
        assert(k == (c + 1) * spc) by (nonlinear_arith)
            requires
                k == c * spc + spc,
        ;
        if link(fs, answers, chain[c]) >= END_OF_CHAIN || remaining == 0 {
            if c < chain.len() - 1 {
                assert(linked_at(fs, answers, chain, c));
            }
            let left = |h: Seq<Reply>| FsRun::Finished(full, h);
            assert forall|g: Seq<Reply>| #[trigger] left(g) == script(cons(r, g)) by {
                reveal_with_fuel(file_run, 2);
            }
            lemma_completes_step(script, left, answers, op, none, full);
            lemma_delivered_cons(op, Seq::empty());
            assert(performed(left, none) =~= Seq::empty());
            assert(goal =~= Seq::empty());
            assert(delivered(performed(script, cons(r, none))) =~= goal);
            cons(r, none)
        } else {
            if c == chain.len() - 1 {
                assert(chain.last() == chain[c]);
            }
            assert(linked_at(fs, answers, chain, c));
            let left = |h: Seq<Reply>| file_run(fs, chain[c + 1], 0, remaining, h);
            let g = lemma_file(fs, answers, chain, c + 1, 0, remaining);
            lemma_completes_step(script, left, answers, op, g, full);
            lemma_delivered_cons(op, performed(left, g));
            assert(delivered(performed(script, cons(r, g))) =~= goal);
            cons(r, g)
        }
    }
}

/// Reading the file that the entry `e` describes, stored in `chain`, hands out its
/// bytes in order. It succeeds exactly if the clusters of the chain hold all of them;
/// otherwise those that they hold are handed out.
pub proof fn lemma_file_contents(
    fs: Fat32,
    answers: Card,
    e: DirEntryView,
    chain: Seq<u32>,
) -> (h: Seq<Reply>)
    requires
        fs.sec_per_clus > 0,
        linked(fs, answers, chain),
        chain[0] == e.cluster,
        readable(fs, answers, chain, e.size as int),
        e.size > 512 * sectors(fs, chain) ==> ended(fs, answers, chain),
    ensures
        ({
            let script = |h: Seq<Reply>| read_found_run(fs, Some(e), h);
            &&& completes(script, answers, h, e.size <= 512 * sectors(fs, chain))
            &&& delivered(performed(script, h)) == bytes_in(
                fs,
                answers,
                chain,
                0,
                held(fs, chain, e.size as int),
            )
        }),
{
    assert(0 * fs.sec_per_clus as int == 0);
    let h = lemma_file(fs, answers, chain, 0, 0, e.size);
    assert((|h: Seq<Reply>| read_found_run(fs, Some(e), h)) =~= (|h: Seq<Reply>|
        file_run(fs, chain[0], 0, e.size, h)));
    h
}

/// Reading a file by its name hands out exactly the bytes that the card stores for
/// the first entry of that name in the root directory.
pub proof fn lemma_read_back(
    fs: Fat32,
    answers: Card,
    directory: Seq<u32>,
    name83: Seq<u8>,
    file: Seq<u32>,
) -> (h: Seq<Reply>)
    requires
        fs.ready,
        fs.sec_per_clus > 0,
        directory_in(fs, answers, directory),
        directory[0] == fs.root_cluster,
        linked(fs, answers, file),
        ({
            let found = find_entry(listed(fs, answers, directory, 0), name83);
            &&& found matches Some(e)
            &&& file[0] == e.cluster
            &&& readable(fs, answers, file, e.size as int)
            &&& e.size > 512 * sectors(fs, file) ==> ended(fs, answers, file)
        }),
    ensures
        ({
            let e = find_entry(listed(fs, answers, directory, 0), name83)->Some_0;
            let script = |h: Seq<Reply>| read_file_run(fs, name83, h);
            &&& completes(script, answers, h, e.size <= 512 * sectors(fs, file))
            &&& delivered(performed(script, h)) == bytes_in(
                fs,
                answers,
                file,
                0,
                held(fs, file, e.size as int),
            )
        }),
{
    let es = listed(fs, answers, directory, 0);
    let found = find_entry(es, name83);
    let e = found->Some_0;
    let walk = |h: Seq<Reply>| root_dir_run(fs, h);
    let k = |es: Seq<DirEntryView>, h: Seq<Reply>| read_found_run(fs, find_entry(es, name83), h);
    let left = |h: Seq<Reply>| read_found_run(fs, Some(e), h);
    let h1 = lemma_root_directory(fs, answers, directory);
    let h2 = lemma_file_contents(fs, answers, e, file);
    assert((|h: Seq<Reply>| k(es, h)) =~= left);
    lemma_completes_and_then(walk, k, answers, h1, es, h2, e.size <= 512 * sectors(fs, file));
    assert((|h: Seq<Reply>| walk(h).and_then(k)) =~= (|h: Seq<Reply>|
        read_file_run(fs, name83, h)));
    lemma_delivered_reads(performed(walk, h1), performed(left, h2));
    h1 + h2
}

/// A name that the root directory does not hold is not read: nothing is handed out
/// and the result says so.
pub proof fn lemma_missing_file(
    fs: Fat32,
    answers: Card,
    directory: Seq<u32>,
    name83: Seq<u8>,
) -> (h: Seq<Reply>)
    requires
        fs.ready,
        fs.sec_per_clus > 0,
        directory_in(fs, answers, directory),
        directory[0] == fs.root_cluster,
        find_entry(listed(fs, answers, directory, 0), name83) is None,
    ensures
        completes(|h: Seq<Reply>| read_file_run(fs, name83, h), answers, h, false),
        delivered(performed(|h: Seq<Reply>| read_file_run(fs, name83, h), h)) == Seq::<
            u8,
        >::empty(),
{
    let es = listed(fs, answers, directory, 0);
    let none = Seq::<Reply>::empty();
    let walk = |h: Seq<Reply>| root_dir_run(fs, h);
    let k = |es: Seq<DirEntryView>, h: Seq<Reply>| read_found_run(fs, find_entry(es, name83), h);
    let h = lemma_root_directory(fs, answers, directory);
    lemma_completes_and_then(walk, k, answers, h, es, none, false);
    assert(h + none =~= h);
    assert((|h: Seq<Reply>| walk(h).and_then(k)) =~= (|h: Seq<Reply>|
        read_file_run(fs, name83, h)));
    lemma_delivered_reads(performed(walk, h), performed(|h: Seq<Reply>| k(es, h), none));
    h
}

/// Where no volume is known, nothing is read: the root directory is empty and no
/// file is found.
pub proof fn lemma_no_volume(fs: Fat32, answers: Card, name83: Seq<u8>)
    requires
        !fs.ready,
    ensures
        completes(
            |h: Seq<Reply>| root_dir_run(fs, h),
            answers,
            Seq::empty(),
            Seq::<DirEntryView>::empty(),
        ),
        completes(|h: Seq<Reply>| read_file_run(fs, name83, h), answers, Seq::empty(), false),
{
}

/// However the card answers, a file that was read successfully was handed out whole:
/// as many bytes as its entry says.
pub proof fn lemma_success_means_all(
    fs: Fat32,
    answers: Card,
    cluster: u32,
    s: u32,
    remaining: u32,
    h: Seq<Reply>,
)
    requires
        forall|lba: u32|
            (#[trigger] answers(FsOpView::Sector(lba))) matches Some(sector) ==> sector.len()
                == 512,
        completes(
            |h: Seq<Reply>| file_run(fs, cluster, s, remaining, h),
            answers,
            h,
            true,
        ),
    ensures
        delivered(performed(|h: Seq<Reply>| file_run(fs, cluster, s, remaining, h), h)).len()
            == remaining,
    decreases h.len(),
{
    reveal_with_fuel(completes, 3);
    reveal_with_fuel(performed, 3);
    let script = |h: Seq<Reply>| file_run(fs, cluster, s, remaining, h);
    let e = Seq::<Reply>::empty();
    if h.len() == 0 {
        assert(script(e) == FsRun::Finished(true, e));
    } else {
        let r = h[0];
        let g = h.drop_first();
        if s < fs.sec_per_clus {
            let op = FsOpView::Sector(data_sector(fs, cluster, s));
            lemma_delivered_cons(op, performed(rest(script, r), g));
            if r is None {
                assert(rest(script, r)(e) == FsRun::Finished(false, e));
                assert(false);
            }
            let sector = r->Some_0;
            let n = chunk_len(remaining as int);
            let chunk = FsOpView::Chunk(sector.take(n));
            let mid = |h: Seq<Reply>| chunk_run(fs, cluster, s, remaining, sector, h);
            assert(rest(script, r) =~= mid);
            if g.len() == 0 {
                assert(mid(e) == FsRun::Finished(true, e));
                assert(false);
            }
            let less = (remaining - n) as u32;
            let left = |h: Seq<Reply>| file_run(fs, cluster, (s + 1) as u32, less, h);
            assert(rest(mid, g[0]) =~= left);
            lemma_success_means_all(fs, answers, cluster, (s + 1) as u32, less, g.drop_first());
            lemma_delivered_cons(chunk, performed(left, g.drop_first()));
        } else {
            let op = FsOpView::Sector(fat_sector(fs, cluster));
            lemma_delivered_cons(op, performed(rest(script, r), g));
            let next = next_cluster(r, cluster);
            if next >= END_OF_CHAIN {
                assert(rest(script, r)(e) == FsRun::Finished(remaining == 0, e));
                assert(g.len() == 0);
            } else {
                let left = |h: Seq<Reply>| file_run(fs, next as u32, 0, remaining, h);
                assert(rest(script, r) =~= left);
                lemma_success_means_all(fs, answers, next as u32, 0, remaining, g);
            }
        }
    }
}

// ── Finding the volume ─────────────────────────────────────────────────────

/// What is known once the card was searched for a volume, and whether it has one.
pub open spec fn mounted(fs: Fat32, answers: Card) -> (bool, Fat32) {
    match answers(FsOpView::Sector(0)) {
        None => (false, fs),
        Some(mbr) => match mbr_partition(mbr) {
            None => (false, fs),
            Some(lba) => match answers(FsOpView::Sector(lba)) {
                None => (false, with_partition(fs, lba)),
                Some(vbr) => match vbr_volume(with_partition(fs, lba), vbr) {
                    None => (false, with_partition(fs, lba)),
                    Some(volume) => (true, volume),
                },
            },
        },
    }
}

proof fn lemma_print(text: Seq<u8>, ok: bool, fs: Fat32, answers: Card) -> (h: Seq<Reply>)
    ensures
        completes(|h: Seq<Reply>| print_run(text, ok, fs, h), answers, h, (ok, fs)),
        h.len() == 1,
{
    let none = Seq::<Reply>::empty();
    let op = FsOpView::Print(text);
    let left = |h: Seq<Reply>| FsRun::Finished((ok, fs), h);
    lemma_completes_step(
        |h: Seq<Reply>| print_run(text, ok, fs, h),
        left,
        answers,
        op,
        none,
        (ok, fs),
    );
    cons(answers(op), none)
}

proof fn lemma_mount_vbr(fs: Fat32, answers: Card) -> (h: Seq<Reply>)
    ensures
        completes(
            |h: Seq<Reply>| init_vbr_run(fs, h),
            answers,
            h,
            match answers(FsOpView::Sector(fs.partition_lba)) {
                None => (false, fs),
                Some(vbr) => match vbr_volume(fs, vbr) {
                    None => (false, fs),
                    Some(volume) => (true, volume),
                },
            },
        ),
        h.len() == 2,
{
    let op = FsOpView::Sector(fs.partition_lba);
    let r = answers(op);
    let (text, ok, known) = match r {
        None => (read_failed_text(fs.partition_lba), false, fs),
        Some(vbr) => match vbr_volume(fs, vbr) {
            None => (vbr_text(fs, vbr), false, fs),
            Some(volume) => (vbr_text(fs, vbr), true, volume),
        },
    };
    let g = lemma_print(text, ok, known, answers);
    let left = |h: Seq<Reply>| print_run(text, ok, known, h);
    lemma_completes_step(|h: Seq<Reply>| init_vbr_run(fs, h), left, answers, op, g, (ok, known));
    cons(r, g)
}

/// The search for the volume ends after at most four operations with what the card
/// holds. A volume that was found is ready for use: its clusters are not empty.
pub proof fn lemma_mount(fs: Fat32, answers: Card) -> (h: Seq<Reply>)
    ensures
        completes(|h: Seq<Reply>| init_run(fs, h), answers, h, mounted(fs, answers)),
        h.len() <= 4,
        mounted(fs, answers).0 ==> mounted(fs, answers).1.ready && 0 < mounted(
            fs,
            answers,
        ).1.sec_per_clus < 256,
{
    let script = |h: Seq<Reply>| init_run(fs, h);
    let op = FsOpView::Sector(0);
    let r = answers(op);
    let v = mounted(fs, answers);
    if r matches Some(mbr) && mbr_partition(mbr) is Some {
        let mbr = r->Some_0;
        let known = with_partition(fs, mbr_partition(mbr)->Some_0);
        let g = lemma_mount_vbr(known, answers);
        let print = FsOpView::Print(mbr_text(mbr));
        let left = |h: Seq<Reply>| init_vbr_run(known, h);
        let mid = |h: Seq<Reply>|
            if h.len() == 0 {
                FsRun::Wants(print)
            } else {
                left(h.drop_first())
            };
        lemma_completes_step(mid, left, answers, print, g, v);
        lemma_completes_step(script, mid, answers, op, cons(answers(print), g), v);
        cons(r, cons(answers(print), g))
    } else {
        let text = match r {
            None => read_failed_text(0),
            Some(mbr) => mbr_text(mbr),
        };
        let g = lemma_print(text, false, fs, answers);
        let left = |h: Seq<Reply>| print_run(text, false, fs, h);
        lemma_completes_step(script, left, answers, op, g, v);
        cons(r, g)
    }
}

// ── Sectors that cannot be read ────────────────────────────────────────────

/// A sector that cannot be read, of the file or of the table, ends the reading: nothing
/// is asked for and nothing is handed out after it.
pub proof fn lemma_unreadable_ends_reading(
    fs: Fat32,
    cluster: u32,
    s: u32,
    remaining: u32,
    h: Seq<Reply>,
)
    requires
        file_run(fs, cluster, s, remaining, h) matches Run::Wants(op) && op is Sector,
    ensures
        file_run(fs, cluster, s, remaining, h.push(None)) matches Run::Finished(_, left)
            && left.len() == 0,
    decreases h.len(),
{
    reveal_with_fuel(file_run, 2);
    reveal_with_fuel(chunk_run, 2);
    let all = h.push(None);
    if h.len() == 0 {
        assert(all[0] == None::<Seq<u8>>);
        assert(all.drop_first() =~= Seq::empty());
    } else {
        let g = h.drop_first();
        assert(all[0] == h[0]);
        assert(all.drop_first() =~= g.push(None));
        if s < fs.sec_per_clus {
            let sector = h[0]->Some_0;
            assert(file_run(fs, cluster, s, remaining, h) == chunk_run(
                fs,
                cluster,
                s,
                remaining,
                sector,
                g,
            ));
            assert(file_run(fs, cluster, s, remaining, all) == chunk_run(
                fs,
                cluster,
                s,
                remaining,
                sector,
                g.push(None),
            ));
            if g.len() > 0 {
                let n = chunk_len(remaining as int);
                assert(g.push(None).drop_first() =~= g.drop_first().push(None));
                lemma_unreadable_ends_reading(
                    fs,
                    cluster,
                    (s + 1) as u32,
                    (remaining - n) as u32,
                    g.drop_first(),
                );
            }
        } else {
            lemma_unreadable_ends_reading(
                fs,
                next_cluster(h[0], cluster) as u32,
                0,
                remaining,
                g,
            );
        }
    }
}

/// The same for the walk through a directory.
pub proof fn lemma_unreadable_ends_walk(
    fs: Fat32,
    cluster: u32,
    s: u32,
    found: Seq<DirEntryView>,
    h: Seq<Reply>,
)
    requires
        walk_run(fs, cluster, s, found, h) is Wants,
    ensures
        walk_run(fs, cluster, s, found, h.push(None)) matches Run::Finished(es, left)
            && left.len() == 0 && found.is_prefix_of(es),
    decreases h.len(),
{
    let all = h.push(None);
    if h.len() == 0 {
        assert(all[0] == None::<Seq<u8>>);
        assert(all.drop_first() =~= Seq::empty());
    } else {
        let g = h.drop_first();
        assert(all[0] == h[0]);
        assert(all.drop_first() =~= g.push(None));
        if s < fs.sec_per_clus {
            let more = found + entries_from(h[0]->Some_0, 0);
            lemma_unreadable_ends_walk(fs, cluster, (s + 1) as u32, more, g);
            let es = walk_run(fs, cluster, s, found, all)->Finished_0;
            assert forall|i: int| 0 <= i < found.len() implies es[i] == #[trigger] found[i] by {
                assert(more[i] == found[i]);
            }
        } else {
            lemma_unreadable_ends_walk(fs, next_cluster(h[0], cluster) as u32, 0, found, g);
        }
    }
}

} // verus!
