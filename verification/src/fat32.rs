//! FAT32: finding the volume on the card, walking its root directory and reading
//! files by their 8.3 name.
//!
//! The card is read by whoever drives these procedures: each asks for one sector
//! at a time and is handed its 512 bytes, or `None` where the card failed.
//! Sector and cluster numbers come from the card, so all arithmetic on them is
//! modulo 2^32.
use vstd::prelude::*;
use vstd::arithmetic::div_mod::{lemma_small_mod, lemma_mul_mod_noop_left, lemma_add_mod_noop_right, lemma_mod_add_multiples_vanish};
use crate::session::{Run, Next, op_run, cons};
use crate::text::{utf8, decimal, hex, push_str, push_decimal, push_hex, push_bytes, same_bytes};

verus! {

broadcast use crate::session::lemma_cons;

pub const ATTR_DIRECTORY: u8 = 0x10;
pub const ATTR_VOLUME_ID: u8 = 0x08;
/// A long file name entry.
pub const ATTR_LFN: u8 = 0x0F;
/// Cluster numbers from here on end a chain.
pub const END_OF_CHAIN: u32 = 0x0FFF_FFF8;

/// What is known of the volume.
#[derive(Clone, Copy, PartialEq, Eq, Structural, Debug)]
pub struct Fat32 {
    pub partition_lba: u32,
    pub fat_lba: u32,
    pub data_lba: u32,
    pub root_cluster: u32,
    pub sec_per_clus: u32,
    /// The volume was found and the other fields describe it.
    pub ready: bool,
}

impl Fat32 {
    /// Nothing is known yet.
    pub fn new() -> (fs: Fat32)
        ensures
            fs == (Fat32 {
                partition_lba: 0,
                fat_lba: 0,
                data_lba: 0,
                root_cluster: 0,
                sec_per_clus: 0,
                ready: false,
            }),
    {
        Fat32 {
            partition_lba: 0,
            fat_lba: 0,
            data_lba: 0,
            root_cluster: 0,
            sec_per_clus: 0,
            ready: false,
        }
    }
}

/// What a file system procedure wants done.
#[derive(PartialEq, Eq, Debug)]
pub enum FsOp {
    /// Read this sector; the reply is its contents, or `None`.
    Sector(u32),
    /// Print this text.
    Print(Vec<u8>),
    /// Take the next bytes of the file.
    Chunk(Vec<u8>),
}

/// [`FsOp`] with its bytes as a sequence.
pub enum FsOpView {
    Sector(u32),
    Print(Seq<u8>),
    Chunk(Seq<u8>),
}

impl View for FsOp {
    type V = FsOpView;

    open spec fn view(&self) -> FsOpView {
        match *self {
            FsOp::Sector(lba) => FsOpView::Sector(lba),
            FsOp::Print(text) => FsOpView::Print(text@),
            FsOp::Chunk(bytes) => FsOpView::Chunk(bytes@),
        }
    }
}

/// The reply to an operation: a sector's contents where one was asked for and the
/// card delivered it.
pub type Reply = Option<Seq<u8>>;

pub type FsRun<T> = Run<FsOpView, Reply, T>;

pub open spec fn reply_view(r: Option<&[u8; 512]>) -> Reply {
    match r {
        Some(sector) => Some(sector@),
        None => None,
    }
}

// ── Numbers in sectors ─────────────────────────────────────────────────────

/// The little-endian 16-bit number at `o`.
pub open spec fn le16(s: Seq<u8>, o: int) -> int {
    s[o] + 0x100 * s[o + 1]
}

/// The little-endian 32-bit number at `o`.
pub open spec fn le32(s: Seq<u8>, o: int) -> int {
    s[o] + 0x100 * s[o + 1] + 0x1_0000 * s[o + 2] + 0x100_0000 * s[o + 3]
}

fn buf_u16(buf: &[u8; 512], offset: usize) -> (v: u16)
    requires
        offset + 2 <= 512,
    ensures
        v == le16(buf@, offset as int),
{
    let b0: u8 = buf[offset];
    let b1: u8 = buf[offset + 1];
    assert((b0 as u16) | ((b1 as u16) << 8) == b0 + 0x100 * b1) by (bit_vector);
    (b0 as u16) | ((b1 as u16) << 8)
}

fn buf_u32(buf: &[u8; 512], offset: usize) -> (v: u32)
    requires
        offset + 4 <= 512,
    ensures
        v == le32(buf@, offset as int),
{
    let b0: u8 = buf[offset];
    let b1: u8 = buf[offset + 1];
    let b2: u8 = buf[offset + 2];
    let b3: u8 = buf[offset + 3];
    assert((b0 as u32) | ((b1 as u32) << 8) | ((b2 as u32) << 16) | ((b3 as u32) << 24) == b0
        + 0x100 * b1 + 0x1_0000 * b2 + 0x100_0000 * b3) by (bit_vector);
    (b0 as u32) | ((b1 as u32) << 8) | ((b2 as u32) << 16) | ((b3 as u32) << 24)
}

// ── Clusters ───────────────────────────────────────────────────────────────

/// The first sector of a cluster. Clusters are numbered from 2.
pub open spec fn cluster_lba(fs: Fat32, cluster: u32) -> int {
    (fs.data_lba + (cluster - 2) * fs.sec_per_clus) % 0x1_0000_0000
}

/// The sector `s` of a cluster.
pub open spec fn data_sector(fs: Fat32, cluster: u32, s: u32) -> u32 {
    ((cluster_lba(fs, cluster) + s) % 0x1_0000_0000) as u32
}

/// The sector that holds a cluster's entry in the file allocation table: 128
/// four-byte entries to a sector.
pub open spec fn fat_sector(fs: Fat32, cluster: u32) -> u32 {
    ((fs.fat_lba + (cluster % 0x4000_0000) / 128) % 0x1_0000_0000) as u32
}

/// The cluster that follows `cluster`, according to the table sector that was
/// read: the low 28 bits of its entry. A table that cannot be read ends the chain.
pub open spec fn next_cluster(sector: Reply, cluster: u32) -> int {
    match sector {
        Some(s) => le32(s, 4 * (cluster as int % 128)) % 0x1000_0000,
        None => 0x0FFF_FFFF,
    }
}

fn cluster_to_lba(fs: &Fat32, cluster: u32) -> (lba: u32)
    ensures
        lba == cluster_lba(*fs, cluster),
{
    let m: u32 = cluster.wrapping_sub(2);
    proof {
        let r = 0x1_0000_0000int;
        let c = cluster - 2;
        let spc = fs.sec_per_clus as int;
        assert(m as int == c % r) by {
            if c < 0 {
                lemma_mod_add_multiples_vanish(c, r);
                lemma_small_mod((c + r) as nat, r as nat);
            } else {
                lemma_small_mod(c as nat, r as nat);
            }
        }
        lemma_mul_mod_noop_left(c, spc, r);
        lemma_add_mod_noop_right(fs.data_lba as int, c * spc, r);
        let p = m.wrapping_mul(fs.sec_per_clus);
        assert(p as int == (c * spc) % r) by {
            assert((m as nat * fs.sec_per_clus as nat) as int == m as int * spc);
        }
        let sum = fs.data_lba + p;
        if sum > u32::MAX {
            lemma_mod_add_multiples_vanish(sum - r, r);
            lemma_small_mod((sum - r) as nat, r as nat);
        } else {
            lemma_small_mod(sum as nat, r as nat);
        }
    }
    fs.data_lba.wrapping_add(m.wrapping_mul(fs.sec_per_clus))
}

fn get_data_sector(fs: &Fat32, cluster: u32, s: u32) -> (lba: u32)
    ensures
        lba == data_sector(*fs, cluster, s),
{
    let first: u32 = cluster_to_lba(fs, cluster);
    first.wrapping_add(s)
}

fn get_fat_sector(fs: &Fat32, cluster: u32) -> (lba: u32)
    ensures
        lba == fat_sector(*fs, cluster),
{
    let fat_offset: u32 = cluster.wrapping_mul(4);
    assert(fat_offset / 512 == (cluster % 0x4000_0000) / 128);
    fs.fat_lba.wrapping_add(fat_offset / 512)
}

/// Follows the chain from `cluster`, given the table sector that was read.
fn fat_next_cluster(sector: Option<&[u8; 512]>, cluster: u32) -> (next: u32)
    ensures
        next == next_cluster(reply_view(sector), cluster),
{
    match sector {
        Some(buf) => {
            let fat_offset: u32 = cluster.wrapping_mul(4);
            assert(fat_offset % 512 == 4 * (cluster as int % 128));
            let v: u32 = buf_u32(buf, (fat_offset % 512) as usize);
            assert(v & 0x0FFF_FFFF == v % 0x1000_0000) by (bit_vector);
            v & 0x0FFF_FFFF
        },
        None => 0x0FFF_FFFF,
    }
}

// ── Directory entries ──────────────────────────────────────────────────────

/// A directory entry, its name as the eleven bytes on the card.
#[derive(Clone, Copy, PartialEq, Eq, Debug)]
pub struct DirEntry {
    pub name: [u8; 11],
    pub cluster: u32,
    pub size: u32,
    pub attr: u8,
}

/// [`DirEntry`] with its name as a sequence.
pub struct DirEntryView {
    pub name: Seq<u8>,
    pub cluster: u32,
    pub size: u32,
    pub attr: u8,
}

impl View for DirEntry {
    type V = DirEntryView;

    open spec fn view(&self) -> DirEntryView {
        DirEntryView {
            name: self.name@,
            cluster: self.cluster,
            size: self.size,
            attr: self.attr,
        }
    }
}

pub open spec fn entry_views(es: Seq<DirEntry>) -> Seq<DirEntryView> {
    es.map_values(|e: DirEntry| e@)
}

/// Entry `i` of a directory sector, each 32 bytes long.
pub open spec fn entry_at(sector: Seq<u8>, i: int) -> DirEntryView {
    DirEntryView {
        name: sector.subrange(32 * i, 32 * i + 11),
        cluster: (le16(sector, 32 * i + 20) * 0x1_0000 + le16(sector, 32 * i + 26)) as u32,
        size: le32(sector, 32 * i + 28) as u32,
        attr: sector[32 * i + 11],
    }
}

/// Entry `i` is deleted, part of a long name, or the volume label.
pub open spec fn entry_hidden(sector: Seq<u8>, i: int) -> bool {
    ||| sector[32 * i] == 0xE5
    ||| sector[32 * i + 11] == ATTR_LFN
    ||| sector[32 * i + 11] & ATTR_VOLUME_ID != 0
}

/// The visible entries of a directory sector from entry `i` on, up to the mark
/// that ends the directory (a first byte of 0).
pub open spec fn entries_from(sector: Seq<u8>, i: int) -> Seq<DirEntryView>
    decreases 16 - i,
{
    if i >= 16 || sector[32 * i] == 0 {
        Seq::empty()
    } else if entry_hidden(sector, i) {
        entries_from(sector, i + 1)
    } else {
        seq![entry_at(sector, i)] + entries_from(sector, i + 1)
    }
}

/// The directory ends in this sector.
pub open spec fn directory_ends(sector: Seq<u8>) -> bool {
    exists|i: int| 0 <= i < 16 && #[trigger] sector[32 * i] == 0
}

fn read_entry(sector: &[u8; 512], i: usize) -> (e: DirEntry)
    requires
        i < 16,
    ensures
        e@ == entry_at(sector@, i as int),
{
    let offset: usize = i * 32;
    let mut name: [u8; 11] = [0x20;11];
    for k in 0..11usize
        invariant
            offset + 32 <= 512,
            forall|j: int| 0 <= j < k ==> name@[j] == sector@[offset + j],
    {
        name[k] = sector[offset + k];
    }
    assert(name@ =~= sector@.subrange(offset as int, offset + 11));
    let hi: u32 = buf_u16(sector, offset + 20) as u32;
    let lo: u32 = buf_u16(sector, offset + 26) as u32;
    assert((hi << 16) | lo == hi * 0x1_0000 + lo) by (bit_vector)
        requires
            hi < 0x1_0000,
            lo < 0x1_0000,
    ;
    DirEntry {
        name,
        cluster: (hi << 16) | lo,
        size: buf_u32(sector, offset + 28),
        attr: sector[offset + 11],
    }
}

/// Appends the visible entries of a directory sector to `found`; the result says
/// whether the directory ends there.
fn scan_sector(sector: &[u8; 512], found: &mut Vec<DirEntry>) -> (end: bool)
    ensures
        entry_views(final(found)@) == entry_views(old(found)@) + entries_from(sector@, 0),
        end == directory_ends(sector@),
{
    let ghost before = found@;
    let mut i: usize = 0;
    while i < 16
        invariant
            i <= 16,
            before == old(found)@,
            forall|j: int| 0 <= j < i ==> #[trigger] sector@[32 * j] != 0,
            entry_views(found@) + entries_from(sector@, i as int) == entry_views(before)
                + entries_from(sector@, 0),
        decreases 16 - i,
    {
        let offset: usize = i * 32;
        let first_byte: u8 = sector[offset];
        if first_byte == 0x00 {
            assert(sector@[32 * (i as int)] == 0);
            assert(entry_views(found@) + entries_from(sector@, i as int) =~= entry_views(found@));
            return true;
        }
        let attr: u8 = sector[offset + 11];
        if !(first_byte == 0xE5 || attr == ATTR_LFN || attr & ATTR_VOLUME_ID != 0) {
            let ghost prev = found@;
            let e: DirEntry = read_entry(sector, i);
            found.push(e);
            assert(entry_views(found@) =~= entry_views(prev).push(e@));
            assert(entry_views(found@) + entries_from(sector@, i + 1) =~= entry_views(prev) + (seq![
                e@,
            ] + entries_from(sector@, i + 1)));
        }
        i = i + 1;
    }
    assert(entry_views(found@) + entries_from(sector@, 16) =~= entry_views(found@));
    false
}

// ── Walking the root directory ─────────────────────────────────────────────

/// The walk through a directory from sector `s` of `cluster` on, with `found`
/// entries behind it. It ends at the end mark, at the end of the chain, or where a
/// sector cannot be read.
pub open spec fn walk_run(
    fs: Fat32,
    cluster: u32,
    s: u32,
    found: Seq<DirEntryView>,
    h: Seq<Reply>,
) -> FsRun<Seq<DirEntryView>>
    decreases h.len(),
{
    if s < fs.sec_per_clus {
        if h.len() == 0 {
            Run::Wants(FsOpView::Sector(data_sector(fs, cluster, s)))
        } else {
            match h[0] {
                None => Run::Finished(found, h.drop_first()),
                Some(sector) => if directory_ends(sector) {
                    Run::Finished(found + entries_from(sector, 0), h.drop_first())
                } else {
                    walk_run(
                        fs,
                        cluster,
                        (s + 1) as u32,
                        found + entries_from(sector, 0),
                        h.drop_first(),
                    )
                },
            }
        }
    } else {
        if h.len() == 0 {
            Run::Wants(FsOpView::Sector(fat_sector(fs, cluster)))
        } else if next_cluster(h[0], cluster) >= END_OF_CHAIN {
            Run::Finished(found, h.drop_first())
        } else {
            walk_run(fs, next_cluster(h[0], cluster) as u32, 0, found, h.drop_first())
        }
    }
}

/// The entries of the root directory, in order; none where no volume is known.
pub open spec fn root_dir_run(fs: Fat32, h: Seq<Reply>) -> FsRun<Seq<DirEntryView>> {
    if fs.ready {
        walk_run(fs, fs.root_cluster, 0, Seq::empty(), h)
    } else {
        Run::Finished(Seq::empty(), h)
    }
}

/// The walk through the root directory under way.
pub struct RootWalk {
    fs: Fat32,
    cluster: u32,
    s: u32,
    found: Vec<DirEntry>,
    done: bool,
}

impl RootWalk {
    /// What happens from here on.
    pub closed spec fn run(self, h: Seq<Reply>) -> FsRun<Seq<DirEntryView>> {
        if self.done {
            Run::Finished(entry_views(self.found@), h)
        } else {
            walk_run(self.fs, self.cluster, self.s, entry_views(self.found@), h)
        }
    }

    /// The sector wanted next, or `None` where the walk is over.
    fn wanted(&self) -> (lba: Option<u32>)
        ensures
            match lba {
                Some(lba) => self.run(Seq::empty()) == FsRun::<Seq<DirEntryView>>::Wants(
                    FsOpView::Sector(lba),
                ),
                None => forall|h: Seq<Reply>| #[trigger]
                    self.run(h) == FsRun::Finished(self.entries(), h),
            },
    {
        if self.done {
            None
        } else if self.s < self.fs.sec_per_clus {
            Some(get_data_sector(&self.fs, self.cluster, self.s))
        } else {
            Some(get_fat_sector(&self.fs, self.cluster))
        }
    }

    /// The entries found so far.
    pub closed spec fn entries(self) -> Seq<DirEntryView> {
        entry_views(self.found@)
    }

    /// The sector wanted next, or the entries of the root directory.
    pub fn next(&self) -> (r: Next<FsOp, Vec<DirEntry>>)
        ensures
            match r {
                Next::Op(op) => self.run(Seq::empty()) == FsRun::<Seq<DirEntryView>>::Wants(op@),
                Next::Done(es) => forall|h: Seq<Reply>| #[trigger]
                    self.run(h) == FsRun::Finished(entry_views(es@), h),
            },
    {
        match self.wanted() {
            Some(lba) => Next::Op(FsOp::Sector(lba)),
            None => {
                let mut es: Vec<DirEntry> = Vec::new();
                let n: usize = self.found.len();
                for i in 0..n
                    invariant
                        n == self.found@.len(),
                        es@ == self.found@.take(i as int),
                {
                    es.push(self.found[i]);
                    assert(es@ =~= self.found@.take(i + 1));
                }
                assert(self.found@.take(n as int) =~= self.found@);
                Next::Done(es)
            },
        }
    }

    /// Goes on with the sector that was asked for.
    pub fn answer(&mut self, sector: Option<&[u8; 512]>)
        requires
            old(self).run(Seq::empty()) is Wants,
        ensures
            forall|h: Seq<Reply>|
                #![trigger final(self).run(h)]
                #![trigger old(self).run(cons(reply_view(sector), h))]
                final(self).run(h) == old(self).run(cons(reply_view(sector), h)),
    {
        if self.s < self.fs.sec_per_clus {
            match sector {
                None => {
                    self.done = true;
                },
                Some(buf) => {
                    if scan_sector(buf, &mut self.found) {
                        self.done = true;
                    } else {
                        self.s = self.s + 1;
                    }
                },
            }
        } else {
            let next: u32 = fat_next_cluster(sector, self.cluster);
            if next >= END_OF_CHAIN {
                self.done = true;
            } else {
                self.cluster = next;
                self.s = 0;
            }
        }
    }
}

/// Walks the root directory. The names of the entries are exactly as stored on
/// the card: space-padded, upper case, no dot.
pub fn iter_root_dir(fs: Fat32) -> (m: RootWalk)
    ensures
        forall|h: Seq<Reply>| #[trigger] m.run(h) == root_dir_run(fs, h),
{
    let m = RootWalk {
        fs,
        cluster: fs.root_cluster,
        s: 0,
        found: Vec::new(),
        done: !fs.ready,
    };
    assert(entry_views(m.found@) =~= Seq::empty());
    m
}

// ── Listing ────────────────────────────────────────────────────────────────

/// A file or directory of the root directory.
#[derive(Clone, Copy, PartialEq, Eq, Debug)]
pub struct FileInfo {
    /// `FILENAME.EXT`, followed by zero bytes.
    pub name: [u8; 12],
    pub size: u32,
    pub is_dir: bool,
    pub cluster: u32,
}

/// [`FileInfo`] with its name as a sequence.
pub struct FileInfoView {
    pub name: Seq<u8>,
    pub size: u32,
    pub is_dir: bool,
    pub cluster: u32,
}

impl View for FileInfo {
    type V = FileInfoView;

    open spec fn view(&self) -> FileInfoView {
        FileInfoView {
            name: self.name@,
            size: self.size,
            is_dir: self.is_dir,
            cluster: self.cluster,
        }
    }
}

pub open spec fn info_views(files: Seq<FileInfo>) -> Seq<FileInfoView> {
    files.map_values(|f: FileInfo| f@)
}

/// The bytes of `s` before its first space.
pub open spec fn until_space(s: Seq<u8>) -> Seq<u8>
    decreases s.len(),
{
    if s.len() == 0 || s[0] == 0x20 {
        Seq::empty()
    } else {
        seq![s[0]] + until_space(s.drop_first())
    }
}

/// The readable form of an 8.3 name: the name, and, where there is an extension, a
/// dot and the extension.
pub open spec fn display_name(name83: Seq<u8>) -> Seq<u8> {
    until_space(name83.subrange(0, 8)) + if name83[8] != 0x20 {
        seq![0x2Eu8] + until_space(name83.subrange(8, 11))
    } else {
        Seq::empty()
    }
}

/// `s` filled up with zero bytes to a length of `n`.
pub open spec fn zero_filled(s: Seq<u8>, n: nat) -> Seq<u8> {
    Seq::new(
        n,
        |i: int|
            if i < s.len() {
                s[i]
            } else {
                0
            },
    )
}

/// What a directory entry says of its file.
pub open spec fn file_info(e: DirEntryView) -> FileInfoView {
    FileInfoView {
        name: zero_filled(display_name(e.name), 12),
        size: e.size,
        is_dir: e.attr & ATTR_DIRECTORY != 0,
        cluster: e.cluster,
    }
}

proof fn lemma_until_space_len(s: Seq<u8>)
    ensures
        until_space(s).len() <= s.len(),
    decreases s.len(),
{
    if s.len() > 0 && s[0] != 0x20 {
        lemma_until_space_len(s.drop_first());
    }
}

/// Copies `src[from..to]`, up to its first space, to `name[at..]`. The result is
/// the position after the last byte written.
fn copy_until_space(
    src: &[u8; 11],
    from: usize,
    to: usize,
    name: &mut [u8; 12],
    at: usize,
) -> (end: usize)
    requires
        from <= to <= 11,
        at + (to - from) <= 12,
    ensures
        end == at + until_space(src@.subrange(from as int, to as int)).len(),
        at <= end <= at + (to - from),
        forall|j: int| 0 <= j < 12 && !(at <= j < end) ==> final(name)@[j] == old(name)@[j],
        forall|j: int|
            at <= j < end ==> #[trigger] final(name)@[j] == until_space(
                src@.subrange(from as int, to as int),
            )[j - at],
    decreases to - from,
{
    proof {
        lemma_until_space_len(src@.subrange(from as int, to as int));
    }
    if from == to || src[from] == 0x20 {
        return at;
    }
    name[at] = src[from];
    let ghost written = name@;
    let ghost rest = src@.subrange(from + 1, to as int);
    assert(src@.subrange(from as int, to as int).drop_first() =~= rest);
    let end: usize = copy_until_space(src, from + 1, to, name, at + 1);
    assert forall|j: int| at <= j < end implies #[trigger] name@[j] == until_space(
        src@.subrange(from as int, to as int),
    )[j - at] by {
        if j > at {
            assert(name@[j] == until_space(rest)[j - (at + 1)]);
        } else {
            assert(name@[j] == written[j]);
        }
    }
    end
}

fn get_file_info(e: &DirEntry) -> (f: FileInfo)
    ensures
        f@ == file_info(e@),
{
    let mut name: [u8; 12] = [0;12];
    proof {
        lemma_until_space_len(e.name@.subrange(0, 8));
        lemma_until_space_len(e.name@.subrange(8, 11));
    }
    let n: usize = copy_until_space(&e.name, 0, 8, &mut name, 0);
    let ghost base = name@;
    if e.name[8] != 0x20 {
        name[n] = 0x2E;
        let end: usize = copy_until_space(&e.name, 8, 11, &mut name, n + 1);
        assert forall|j: int| 0 <= j < 12 implies name@[j] == zero_filled(
            display_name(e.name@),
            12,
        )[j] by {
            if j < n {
                assert(base[j] == until_space(e.name@.subrange(0, 8))[j]);
            }
        }
    }
    assert(name@ =~= zero_filled(display_name(e.name@), 12));
    FileInfo { name, size: e.size, is_dir: e.attr & ATTR_DIRECTORY != 0, cluster: e.cluster }
}

/// The first `max` files and directories of a root directory, or all.
pub open spec fn infos_up_to(es: Seq<DirEntryView>, max: int) -> Seq<FileInfoView> {
    let all = es.map_values(|e: DirEntryView| file_info(e));
    if all.len() <= max {
        all
    } else {
        all.take(max)
    }
}

/// Up to `max` files and directories of the root directory, in order.
pub open spec fn list_root_run(fs: Fat32, max: int, h: Seq<Reply>) -> FsRun<Seq<FileInfoView>> {
    root_dir_run(fs, h).and_then(
        |es: Seq<DirEntryView>, h: Seq<Reply>| Run::Finished(infos_up_to(es, max), h),
    )
}

/// The listing of the root directory under way.
pub struct ListRoot {
    walk: RootWalk,
    max: usize,
}

impl ListRoot {
    /// What happens from here on.
    pub closed spec fn run(self, h: Seq<Reply>) -> FsRun<Seq<FileInfoView>> {
        let max = self.max as int;
        self.walk.run(h).and_then(
            |es: Seq<DirEntryView>, h: Seq<Reply>| Run::Finished(infos_up_to(es, max), h),
        )
    }

    /// The sector wanted next, or the listing.
    pub fn next(&self) -> (r: Next<FsOp, Vec<FileInfo>>)
        ensures
            match r {
                Next::Op(op) => self.run(Seq::empty()) == FsRun::<Seq<FileInfoView>>::Wants(op@),
                Next::Done(files) => forall|h: Seq<Reply>| #[trigger]
                    self.run(h) == FsRun::Finished(info_views(files@), h),
            },
    {
        match self.walk.next() {
            Next::Op(op) => Next::Op(op),
            Next::Done(es) => {
                let mut files: Vec<FileInfo> = Vec::new();
                let n: usize = if es.len() <= self.max {
                    es.len()
                } else {
                    self.max
                };
                for i in 0..n
                    invariant
                        n <= es@.len(),
                        files@.len() == i,
                        forall|j: int| 0 <= j < i ==> #[trigger] files@[j]@ == file_info(es@[j]@),
                {
                    files.push(get_file_info(&es[i]));
                }
                assert(info_views(files@) =~= infos_up_to(entry_views(es@), self.max as int));
                Next::Done(files)
            },
        }
    }

    /// Goes on with the sector that was asked for.
    pub fn answer(&mut self, sector: Option<&[u8; 512]>)
        requires
            old(self).run(Seq::empty()) is Wants,
        ensures
            forall|h: Seq<Reply>|
                #![trigger final(self).run(h)]
                #![trigger old(self).run(cons(reply_view(sector), h))]
                final(self).run(h) == old(self).run(cons(reply_view(sector), h)),
    {
        self.walk.answer(sector);
    }
}

/// Lists up to `max` entries of the root directory.
pub fn fat32_list_root(fs: Fat32, max: usize) -> (m: ListRoot)
    ensures
        forall|h: Seq<Reply>| #[trigger] m.run(h) == list_root_run(fs, max as int, h),
{
    ListRoot { walk: iter_root_dir(fs), max }
}

/// The diagnostic line for an entry: the bytes of its raw name, whether it is a
/// directory, and its size.
pub open spec fn debug_line(e: DirEntryView) -> Seq<u8> {
    utf8("[fat32]   [") + hex_bytes(e.name) + utf8("] ") + utf8(
        if e.attr & ATTR_DIRECTORY != 0 {
            "<DIR>"
        } else {
            "     "
        },
    ) + utf8(" ") + decimal(e.size as nat) + utf8(" bytes\n")
}

/// Bytes as pairs of hexadecimal digits, with spaces between.
pub open spec fn hex_bytes(bytes: Seq<u8>) -> Seq<u8>
    decreases bytes.len(),
{
    if bytes.len() == 0 {
        Seq::empty()
    } else {
        hex_bytes(bytes.drop_last()) + (if bytes.len() > 1 {
            utf8(" ")
        } else {
            Seq::empty()
        }) + hex(bytes.last() as nat, 2, true)
    }
}

pub open spec fn debug_lines(es: Seq<DirEntryView>) -> Seq<u8>
    decreases es.len(),
{
    if es.len() == 0 {
        Seq::empty()
    } else {
        debug_lines(es.drop_last()) + debug_line(es.last())
    }
}

/// The diagnostic listing of a root directory.
pub open spec fn debug_text(es: Seq<DirEntryView>) -> Seq<u8> {
    utf8("[fat32] Root directory listing:\n") + debug_lines(es) + (if es.len() == 0 {
        utf8("[fat32]   (no entries found)\n")
    } else {
        Seq::empty()
    }) + utf8("[fat32] ") + decimal(es.len()) + utf8(" entries total\n")
}

fn push_debug_line(out: &mut Vec<u8>, e: &DirEntry)
    ensures
        final(out)@ == old(out)@ + debug_line(e@),
{
    let ghost before = out@;
    push_str(out, "[fat32]   [");
    let ghost opened = out@;
    for i in 0..11usize
        invariant
            out@ == opened + hex_bytes(e.name@.take(i as int)),
    {
        let ghost shown = out@;
        assert(e.name@.take(i + 1).drop_last() =~= e.name@.take(i as int));
        if i > 0 {
            push_str(out, " ");
        }
        push_hex(out, e.name[i] as u64, 2, true);
        assert(out@ =~= opened + hex_bytes(e.name@.take(i + 1)));
    }
    assert(e.name@.take(11) =~= e.name@);
    push_str(out, "] ");
    let is_dir: bool = e.attr & ATTR_DIRECTORY != 0;
    push_str(
        out,
        if is_dir {
            "<DIR>"
        } else {
            "     "
        },
    );
    push_str(out, " ");
    push_decimal(out, e.size as u64);
    push_str(out, " bytes\n");
    assert(out@ =~= before + debug_line(e@));
}

fn get_debug_text(es: &Vec<DirEntry>) -> (out: Vec<u8>)
    ensures
        out@ == debug_text(entry_views(es@)),
{
    let mut out: Vec<u8> = Vec::new();
    push_str(&mut out, "[fat32] Root directory listing:\n");
    let ghost head = utf8("[fat32] Root directory listing:\n");
    assert(out@ =~= head + debug_lines(Seq::empty()));
    let n: usize = es.len();
    let ghost views = entry_views(es@);
    assert(views.take(0) =~= Seq::empty());
    for i in 0..n
        invariant
            n == es@.len(),
            views == entry_views(es@),
            out@ == head + debug_lines(views.take(i as int)),
    {
        assert(views.take(i + 1).drop_last() =~= views.take(i as int));
        assert(head + debug_lines(views.take(i + 1)) =~= head + debug_lines(views.take(i as int))
            + debug_line(es@[i as int]@));
        push_debug_line(&mut out, &es[i]);
    }
    assert(views.take(n as int) =~= views);
    if n == 0 {
        push_str(&mut out, "[fat32]   (no entries found)\n");
    }
    push_str(&mut out, "[fat32] ");
    push_decimal(&mut out, n as u64);
    push_str(&mut out, " entries total\n");
    assert(out@ =~= debug_text(views));
    out
}

/// The diagnostic listing of the root directory.
pub open spec fn list_files_debug_run(fs: Fat32, h: Seq<Reply>) -> FsRun<Seq<u8>> {
    root_dir_run(fs, h).and_then(
        |es: Seq<DirEntryView>, h: Seq<Reply>| Run::Finished(debug_text(es), h),
    )
}

/// The diagnostic listing of the root directory under way.
pub struct ListFilesDebug {
    walk: RootWalk,
}

impl ListFilesDebug {
    /// What happens from here on.
    pub closed spec fn run(self, h: Seq<Reply>) -> FsRun<Seq<u8>> {
        self.walk.run(h).and_then(
            |es: Seq<DirEntryView>, h: Seq<Reply>| Run::Finished(debug_text(es), h),
        )
    }

    /// The sector wanted next, or the text to print.
    pub fn next(&self) -> (r: Next<FsOp, Vec<u8>>)
        ensures
            match r {
                Next::Op(op) => self.run(Seq::empty()) == FsRun::<Seq<u8>>::Wants(op@),
                Next::Done(text) => forall|h: Seq<Reply>| #[trigger]
                    self.run(h) == FsRun::Finished(text@, h),
            },
    {
        match self.walk.next() {
            Next::Op(op) => Next::Op(op),
            Next::Done(es) => Next::Done(get_debug_text(&es)),
        }
    }

    /// Goes on with the sector that was asked for.
    pub fn answer(&mut self, sector: Option<&[u8; 512]>)
        requires
            old(self).run(Seq::empty()) is Wants,
        ensures
            forall|h: Seq<Reply>|
                #![trigger final(self).run(h)]
                #![trigger old(self).run(cons(reply_view(sector), h))]
                final(self).run(h) == old(self).run(cons(reply_view(sector), h)),
    {
        self.walk.answer(sector);
    }
}

/// Lists all files of the root directory for diagnostics, with their raw names.
pub fn fat32_list_files_debug(fs: Fat32) -> (m: ListFilesDebug)
    ensures
        forall|h: Seq<Reply>| #[trigger] m.run(h) == list_files_debug_run(fs, h),
{
    ListFilesDebug { walk: iter_root_dir(fs) }
}

// ── Reading files ──────────────────────────────────────────────────────────

/// The number of bytes that the next sector of a file with `remaining` bytes left
/// contributes.
pub open spec fn chunk_len(remaining: int) -> int {
    if remaining < 512 {
        remaining
    } else {
        512
    }
}

/// Reads a file's contents from sector `s` of `cluster` on, with `remaining` bytes
/// to go, handing out a chunk for each sector. The value says whether all of them
/// were read.
pub open spec fn file_run(fs: Fat32, cluster: u32, s: u32, remaining: u32, h: Seq<Reply>) -> FsRun<
    bool,
>
    decreases h.len(),
{
    if s < fs.sec_per_clus {
        if remaining == 0 {
            Run::Finished(true, h)
        } else if h.len() == 0 {
            Run::Wants(FsOpView::Sector(data_sector(fs, cluster, s)))
        } else {
            match h[0] {
                None => Run::Finished(false, h.drop_first()),
                Some(sector) => chunk_run(fs, cluster, s, remaining, sector, h.drop_first()),
            }
        }
    } else {
        if h.len() == 0 {
            Run::Wants(FsOpView::Sector(fat_sector(fs, cluster)))
        } else if next_cluster(h[0], cluster) >= END_OF_CHAIN {
            Run::Finished(remaining == 0, h.drop_first())
        } else {
            file_run(fs, next_cluster(h[0], cluster) as u32, 0, remaining, h.drop_first())
        }
    }
}

/// The part of [`file_run`] after a sector of the file was read.
pub open spec fn chunk_run(
    fs: Fat32,
    cluster: u32,
    s: u32,
    remaining: u32,
    sector: Seq<u8>,
    h: Seq<Reply>,
) -> FsRun<bool>
    decreases h.len(),
{
    if h.len() == 0 {
        Run::Wants(FsOpView::Chunk(sector.take(chunk_len(remaining as int))))
    } else {
        file_run(
            fs,
            cluster,
            (s + 1) as u32,
            (remaining - chunk_len(remaining as int)) as u32,
            h.drop_first(),
        )
    }
}

/// The first entry with this name.
pub open spec fn find_entry(es: Seq<DirEntryView>, name83: Seq<u8>) -> Option<DirEntryView>
    decreases es.len(),
{
    if es.len() == 0 {
        None
    } else if es[0].name == name83 {
        Some(es[0])
    } else {
        find_entry(es.drop_first(), name83)
    }
}

/// Reads a file of the root directory by its raw eleven-byte name. The value says
/// whether the file was found and all of it was read.
pub open spec fn read_file_run(fs: Fat32, name83: Seq<u8>, h: Seq<Reply>) -> FsRun<bool> {
    root_dir_run(fs, h).and_then(
        |es: Seq<DirEntryView>, h: Seq<Reply>| read_found_run(fs, find_entry(es, name83), h),
    )
}

/// The part of [`read_file_run`] after the root directory was searched.
pub open spec fn read_found_run(fs: Fat32, found: Option<DirEntryView>, h: Seq<Reply>) -> FsRun<
    bool,
> {
    match found {
        None => Run::Finished(false, h),
        Some(e) => file_run(fs, e.cluster, 0, e.size, h),
    }
}

fn find_named(es: &Vec<DirEntry>, name83: &[u8; 11]) -> (found: Option<DirEntry>)
    ensures
        match found {
            None => find_entry(entry_views(es@), name83@) is None,
            Some(e) => find_entry(entry_views(es@), name83@) == Some(e@),
        },
{
    let n: usize = es.len();
    let ghost views = entry_views(es@);
    assert(views.skip(0) =~= views);
    for i in 0..n
        invariant
            n == es@.len(),
            views == entry_views(es@),
            find_entry(views, name83@) == find_entry(views.skip(i as int), name83@),
    {
        assert(views.skip(i as int)[0] == es@[i as int]@);
        assert(views.skip(i as int).drop_first() =~= views.skip(i + 1));
        let e: DirEntry = es[i];
        if same_bytes(e.name.as_slice(), name83.as_slice()) {
            return Some(e);
        }
    }
    None
}

enum FileStage {
    Find(RootWalk),
    Sector,
    Chunk([u8; 512]),
    Done(bool),
}

/// The bytes that are handed out next.
pub open spec fn handed_out<T>(run: FsRun<T>) -> Seq<u8> {
    match run {
        Run::Wants(FsOpView::Chunk(bytes)) => bytes,
        _ => Seq::empty(),
    }
}

/// The reading of a file under way.
pub struct ReadFile {
    fs: Fat32,
    name83: [u8; 11],
    cluster: u32,
    s: u32,
    remaining: u32,
    stage: FileStage,
}

impl ReadFile {
    /// The stage is one in which something is wanted, or the last one.
    pub closed spec fn wf(self) -> bool {
        match self.stage {
            FileStage::Find(w) => w.run(Seq::empty()) is Wants,
            FileStage::Sector => self.s >= self.fs.sec_per_clus || self.remaining > 0,
            FileStage::Chunk(_) => self.s < self.fs.sec_per_clus && self.remaining > 0,
            FileStage::Done(_) => true,
        }
    }

    /// What happens from here on.
    pub closed spec fn run(self, h: Seq<Reply>) -> FsRun<bool> {
        let fs = self.fs;
        let name83 = self.name83@;
        match self.stage {
            FileStage::Find(w) => w.run(h).and_then(
                |es: Seq<DirEntryView>, h: Seq<Reply>|
                    read_found_run(fs, find_entry(es, name83), h),
            ),
            FileStage::Sector => file_run(fs, self.cluster, self.s, self.remaining, h),
            FileStage::Chunk(sector) => chunk_run(
                fs,
                self.cluster,
                self.s,
                self.remaining,
                sector@,
                h,
            ),
            FileStage::Done(ok) => Run::Finished(ok, h),
        }
    }

    /// A bound on the bytes that are still to be handed out.
    pub closed spec fn to_come(self) -> nat {
        match self.stage {
            FileStage::Find(_) => u32::MAX as nat,
            FileStage::Done(_) => 0,
            _ => self.remaining as nat,
        }
    }

    /// The sector wanted next, the chunk to take, or whether the file was read.
    pub fn next(&self) -> (r: Next<FsOp, bool>)
        requires
            self.wf(),
        ensures
            self.to_come() <= u32::MAX,
            r matches Next::Op(op) ==> op !is Print,
            r matches Next::Op(FsOp::Chunk(bytes)) ==> bytes@.len() <= self.to_come(),
            match r {
                Next::Op(op) => self.run(Seq::empty()) == FsRun::<bool>::Wants(op@),
                Next::Done(ok) => forall|h: Seq<Reply>| #[trigger]
                    self.run(h) == FsRun::Finished(ok, h),
            },
    {
        match &self.stage {
            FileStage::Find(w) => match w.next() {
                Next::Op(op) => Next::Op(op),
                Next::Done(_) => Next::Done(false),
            },
            FileStage::Sector => if self.s < self.fs.sec_per_clus {
                Next::Op(FsOp::Sector(get_data_sector(&self.fs, self.cluster, self.s)))
            } else {
                Next::Op(FsOp::Sector(get_fat_sector(&self.fs, self.cluster)))
            },
            FileStage::Chunk(sector) => {
                let len: usize = if self.remaining < 512 {
                    self.remaining as usize
                } else {
                    512
                };
                let mut bytes: Vec<u8> = Vec::new();
                push_bytes(&mut bytes, vstd::slice::slice_subrange(sector.as_slice(), 0, len));
                assert(bytes@ =~= sector@.take(chunk_len(self.remaining as int)));
                Next::Op(FsOp::Chunk(bytes))
            },
            FileStage::Done(ok) => Next::Done(*ok),
        }
    }

    /// Starts on the contents at `cluster`, or goes on to its sector `s`.
    fn to_sector(&mut self, cluster: u32, s: u32, remaining: u32)
        ensures
            final(self).wf(),
            forall|h: Seq<Reply>| #[trigger]
                final(self).run(h) == file_run(old(self).fs, cluster, s, remaining, h),
            final(self).to_come() <= remaining,
    {
        self.cluster = cluster;
        self.s = s;
        self.remaining = remaining;
        if s < self.fs.sec_per_clus && remaining == 0 {
            self.stage = FileStage::Done(true);
        } else {
            self.stage = FileStage::Sector;
        }
    }

    fn to_found(&mut self, es: &Vec<DirEntry>)
        ensures
            final(self).wf(),
            forall|h: Seq<Reply>| #[trigger]
                final(self).run(h) == read_found_run(
                    old(self).fs,
                    find_entry(entry_views(es@), old(self).name83@),
                    h,
                ),
            final(self).to_come() <= u32::MAX,
    {
        match find_named(es, &self.name83) {
            None => {
                self.stage = FileStage::Done(false);
            },
            Some(e) => {
                self.to_sector(e.cluster, 0, e.size);
            },
        }
    }

    /// Goes on with the sector that was asked for; after a chunk the argument does
    /// not matter.
    pub fn answer(&mut self, sector: Option<&[u8; 512]>)
        requires
            old(self).wf(),
            old(self).run(Seq::empty()) is Wants,
        ensures
            final(self).wf(),
            final(self).to_come() + handed_out(old(self).run(Seq::empty())).len()
                <= old(self).to_come(),
            forall|h: Seq<Reply>|
                #![trigger final(self).run(h)]
                #![trigger old(self).run(cons(reply_view(sector), h))]
                final(self).run(h) == old(self).run(cons(reply_view(sector), h)),
    {
        let cluster: u32 = self.cluster;
        let s: u32 = self.s;
        let remaining: u32 = self.remaining;
        match &mut self.stage {
            FileStage::Find(w) => {
                w.answer(sector);
                if let Next::Done(es) = w.next() {
                    self.to_found(&es);
                }
            },
            FileStage::Sector => {
                if s < self.fs.sec_per_clus {
                    match sector {
                        None => {
                            self.stage = FileStage::Done(false);
                        },
                        Some(buf) => {
                            self.stage = FileStage::Chunk(*buf);
                        },
                    }
                } else {
                    let next: u32 = fat_next_cluster(sector, cluster);
                    if next >= END_OF_CHAIN {
                        self.stage = FileStage::Done(remaining == 0);
                    } else {
                        self.to_sector(next, 0, remaining);
                    }
                }
            },
            FileStage::Chunk(_) => {
                let left: u32 = if remaining < 512 {
                    0
                } else {
                    remaining - 512
                };
                self.to_sector(cluster, s + 1, left);
            },
            FileStage::Done(_) => {},
        }
    }
}

/// Reads a file of the root directory. `name83` is compared directly with the raw
/// names on the card: eleven bytes, space-padded, upper case, no dot, as in
/// `VMLINUZ RPI` for `vmlinuz.rpi`.
pub fn fat32_read_file(fs: Fat32, name83: &[u8; 11]) -> (m: ReadFile)
    ensures
        m.wf(),
        m.to_come() <= u32::MAX,
        forall|h: Seq<Reply>| #[trigger] m.run(h) == read_file_run(fs, name83@, h),
{
    let walk: RootWalk = iter_root_dir(fs);
    match walk.next() {
        Next::Op(_) => ReadFile {
            fs,
            name83: *name83,
            cluster: 0,
            s: 0,
            remaining: 0,
            stage: FileStage::Find(walk),
        },
        Next::Done(es) => {
            let mut m = ReadFile {
                fs,
                name83: *name83,
                cluster: 0,
                s: 0,
                remaining: 0,
                stage: FileStage::Done(false),
            };
            m.to_found(&es);
            m
        },
    }
}

// ── Finding the volume ─────────────────────────────────────────────────────

/// The first partition entry of the MBR.
pub const MBR_PARTITION: usize = 0x1BE;
/// The mark at the end of an MBR or a volume boot record.
pub const BOOT_SIGNATURE: u16 = 0xAA55;

pub open spec fn mbr_part_type(mbr: Seq<u8>) -> u8 {
    mbr[0x1BEint + 4]
}

pub open spec fn mbr_part_lba(mbr: Seq<u8>) -> u32 {
    le32(mbr, 0x1BEint + 8) as u32
}

/// A partition type that is certainly none of FAT's: empty, or one of Linux's.
pub open spec fn linux_type(t: u8) -> bool {
    t == 0x82 || t == 0x83 || t == 0x8E
}

/// Where the first partition starts, if the MBR is one and the partition may be a
/// FAT one.
pub open spec fn mbr_partition(mbr: Seq<u8>) -> Option<u32> {
    if le16(mbr, 510) != BOOT_SIGNATURE || mbr_part_type(mbr) == 0 || linux_type(
        mbr_part_type(mbr),
    ) {
        None
    } else {
        Some(mbr_part_lba(mbr))
    }
}

/// What is printed of the MBR.
pub open spec fn mbr_text(mbr: Seq<u8>) -> Seq<u8> {
    let sig = utf8("[fat32] MBR sig: 0x") + hex(le16(mbr, 510) as nat, 4, true) + utf8("\n");
    if le16(mbr, 510) != BOOT_SIGNATURE {
        sig + utf8("[fat32] FAIL: bad MBR signature (expected 0xAA55)\n")
    } else {
        let t = mbr_part_type(mbr);
        sig + utf8("[fat32] Part type: 0x") + hex(t as nat, 2, true) + utf8("  LBA: ") + decimal(
            mbr_part_lba(mbr) as nat,
        ) + utf8("\n") + (if t == 0 {
            utf8("[fat32] FAIL: partition type 0x00 (empty)\n")
        } else if linux_type(t) {
            utf8("[fat32] FAIL: partition type 0x") + hex(t as nat, 2, true) + utf8(
                " is Linux, not FAT\n",
            )
        } else {
            Seq::empty()
        })
    }
}

/// The volume that starts at `fs.partition_lba` with this boot record, if it is
/// usable: 512-byte sectors, at least one sector to a cluster.
pub open spec fn vbr_volume(fs: Fat32, vbr: Seq<u8>) -> Option<Fat32> {
    if le16(vbr, 510) != BOOT_SIGNATURE || le16(vbr, 11) != 512 || vbr[13] == 0 {
        None
    } else {
        let fat_lba = (fs.partition_lba + le16(vbr, 14)) % 0x1_0000_0000;
        Some(
            Fat32 {
                partition_lba: fs.partition_lba,
                fat_lba: fat_lba as u32,
                data_lba: ((fat_lba + vbr[16] * le32(vbr, 36)) % 0x1_0000_0000) as u32,
                root_cluster: le32(vbr, 44) as u32,
                sec_per_clus: vbr[13] as u32,
                ready: true,
            },
        )
    }
}

/// What is printed of the fields of a boot record.
pub open spec fn fields_text(vbr: Seq<u8>) -> Seq<u8> {
    utf8("[fat32] bps=") + decimal(le16(vbr, 11) as nat) + utf8(" spc=") + decimal(vbr[13] as nat)
        + utf8(" res=") + decimal(le16(vbr, 14) as nat) + utf8(" nfat=") + decimal(vbr[16] as nat)
        + utf8(" fatsz=") + decimal(le32(vbr, 36) as nat) + utf8(" rootclus=") + decimal(
        le32(vbr, 44) as nat,
    ) + utf8("\n")
}

/// What is printed last of a boot record with the right signature.
pub open spec fn verdict_text(volume: Option<Fat32>, bytes_per_sector: int) -> Seq<u8> {
    match volume {
        Some(v) => utf8("[fat32] fat_lba=") + decimal(v.fat_lba as nat) + utf8(" data_lba=")
            + decimal(v.data_lba as nat) + utf8("\n"),
        None => if bytes_per_sector != 512 {
            utf8("[fat32] FAIL: bytes_per_sector=") + decimal(bytes_per_sector as nat) + utf8(
                " (need 512)\n",
            )
        } else {
            utf8("[fat32] FAIL: sectors_per_cluster=0\n")
        },
    }
}

/// What is printed of the boot record of the volume at `fs.partition_lba`.
pub open spec fn vbr_text(fs: Fat32, vbr: Seq<u8>) -> Seq<u8> {
    let sig = utf8("[fat32] VBR sig: 0x") + hex(le16(vbr, 510) as nat, 4, true) + utf8("\n");
    if le16(vbr, 510) != BOOT_SIGNATURE {
        sig + utf8("[fat32] FAIL: bad VBR signature\n")
    } else {
        sig + fields_text(vbr) + verdict_text(vbr_volume(fs, vbr), le16(vbr, 11) as int)
    }
}

pub open spec fn read_failed_text(lba: u32) -> Seq<u8> {
    utf8("[fat32] FAIL: sd_read_block(") + decimal(lba as nat) + utf8(") failed\n")
}

/// `fs` with its partition at `lba`.
pub open spec fn with_partition(fs: Fat32, lba: u32) -> Fat32 {
    Fat32 { partition_lba: lba, ..fs }
}

/// Finds the volume: reads the MBR, then the boot record of the first partition,
/// printing what it finds at each step. The value says whether there is a usable
/// volume, and what is now known.
pub open spec fn init_run(fs: Fat32, h: Seq<Reply>) -> FsRun<(bool, Fat32)> {
    op_run(FsOpView::Sector(0), h).and_then(
        |mbr: Reply, h: Seq<Reply>|
            match mbr {
                None => print_run(read_failed_text(0), false, fs, h),
                Some(mbr) => match mbr_partition(mbr) {
                    None => print_run(mbr_text(mbr), false, fs, h),
                    Some(lba) => op_run(FsOpView::Print(mbr_text(mbr)), h).and_then(
                        |_r: Reply, h: Seq<Reply>| init_vbr_run(with_partition(fs, lba), h),
                    ),
                },
            },
    )
}

/// The part of [`init_run`] that starts with the partition known.
pub open spec fn init_vbr_run(fs: Fat32, h: Seq<Reply>) -> FsRun<(bool, Fat32)> {
    op_run(FsOpView::Sector(fs.partition_lba), h).and_then(
        |vbr: Reply, h: Seq<Reply>|
            match vbr {
                None => print_run(read_failed_text(fs.partition_lba), false, fs, h),
                Some(vbr) => match vbr_volume(fs, vbr) {
                    None => print_run(vbr_text(fs, vbr), false, fs, h),
                    Some(volume) => print_run(vbr_text(fs, vbr), true, volume, h),
                },
            },
    )
}

/// Prints a last text and ends.
pub open spec fn print_run(text: Seq<u8>, ok: bool, fs: Fat32, h: Seq<Reply>) -> FsRun<
    (bool, Fat32),
> {
    op_run(FsOpView::Print(text), h).and_then(
        |_r: Reply, h: Seq<Reply>| Run::Finished((ok, fs), h),
    )
}

fn get_read_failed_text(lba: u32) -> (out: Vec<u8>)
    ensures
        out@ == read_failed_text(lba),
{
    let mut out: Vec<u8> = Vec::new();
    push_str(&mut out, "[fat32] FAIL: sd_read_block(");
    push_decimal(&mut out, lba as u64);
    push_str(&mut out, ") failed\n");
    assert(out@ =~= read_failed_text(lba));
    out
}

/// Looks at the MBR: where the partition starts, and what to print.
fn check_mbr(mbr: &[u8; 512]) -> (r: (Option<u32>, Vec<u8>))
    ensures
        r.0 == mbr_partition(mbr@),
        r.1@ == mbr_text(mbr@),
{
    let mut out: Vec<u8> = Vec::new();
    let sig: u16 = buf_u16(mbr, 510);
    push_str(&mut out, "[fat32] MBR sig: 0x");
    push_hex(&mut out, sig as u64, 4, true);
    push_str(&mut out, "\n");
    if sig != BOOT_SIGNATURE {
        push_str(&mut out, "[fat32] FAIL: bad MBR signature (expected 0xAA55)\n");
        assert(out@ =~= mbr_text(mbr@));
        return (None, out);
    }
    let part_type: u8 = mbr[MBR_PARTITION + 4];
    let lba: u32 = buf_u32(mbr, MBR_PARTITION + 8);
    push_str(&mut out, "[fat32] Part type: 0x");
    push_hex(&mut out, part_type as u64, 2, true);
    push_str(&mut out, "  LBA: ");
    push_decimal(&mut out, lba as u64);
    push_str(&mut out, "\n");
    if part_type == 0 {
        push_str(&mut out, "[fat32] FAIL: partition type 0x00 (empty)\n");
        assert(out@ =~= mbr_text(mbr@));
        return (None, out);
    }
    if part_type == 0x82 || part_type == 0x83 || part_type == 0x8E {
        push_str(&mut out, "[fat32] FAIL: partition type 0x");
        push_hex(&mut out, part_type as u64, 2, true);
        push_str(&mut out, " is Linux, not FAT\n");
        assert(out@ =~= mbr_text(mbr@));
        return (None, out);
    }
    assert(out@ =~= mbr_text(mbr@));
    (Some(lba), out)
}

fn get_fields_text(vbr: &[u8; 512]) -> (out: Vec<u8>)
    ensures
        out@ == fields_text(vbr@),
{
    let mut out: Vec<u8> = Vec::new();
    push_str(&mut out, "[fat32] bps=");
    assert(out@ =~= utf8("[fat32] bps="));
    push_decimal(&mut out, buf_u16(vbr, 11) as u64);
    push_str(&mut out, " spc=");
    push_decimal(&mut out, vbr[13] as u64);
    push_str(&mut out, " res=");
    push_decimal(&mut out, buf_u16(vbr, 14) as u64);
    push_str(&mut out, " nfat=");
    push_decimal(&mut out, vbr[16] as u64);
    push_str(&mut out, " fatsz=");
    push_decimal(&mut out, buf_u32(vbr, 36) as u64);
    push_str(&mut out, " rootclus=");
    push_decimal(&mut out, buf_u32(vbr, 44) as u64);
    push_str(&mut out, "\n");
    out
}

/// The volume that a boot record describes.
fn get_volume(fs: Fat32, vbr: &[u8; 512]) -> (volume: Option<Fat32>)
    ensures
        volume == vbr_volume(fs, vbr@),
{
    let sec_per_clus: u32 = vbr[13] as u32;
    if buf_u16(vbr, 510) != BOOT_SIGNATURE || buf_u16(vbr, 11) != 512 || sec_per_clus == 0 {
        return None;
    }
    let num_fats: u32 = vbr[16] as u32;
    let fat_size: u32 = buf_u32(vbr, 36);
    let fat_lba: u32 = fs.partition_lba.wrapping_add(buf_u16(vbr, 14) as u32);
    let tables: u32 = num_fats.wrapping_mul(fat_size);
    let data_lba: u32 = fat_lba.wrapping_add(tables);
    proof {
        let m = 0x1_0000_0000int;
        assert(fat_lba as int == (fs.partition_lba + le16(vbr@, 14)) % m);
        assert(tables as int == (vbr@[16] * le32(vbr@, 36)) % m) by {
            assert((num_fats as nat * fat_size as nat) as int == vbr@[16] * le32(vbr@, 36));
        }
        lemma_add_mod_noop_right(fat_lba as int, vbr@[16] * le32(vbr@, 36), m);
        assert(data_lba as int == (fat_lba + tables) % m);
    }
    Some(
        Fat32 {
            partition_lba: fs.partition_lba,
            fat_lba,
            data_lba,
            root_cluster: buf_u32(vbr, 44),
            sec_per_clus,
            ready: true,
        },
    )
}

/// What is printed last of a boot record with the right signature.
fn get_verdict_text(volume: Option<Fat32>, bytes_per_sector: u16) -> (out: Vec<u8>)
    ensures
        out@ == verdict_text(volume, bytes_per_sector as int),
{
    let mut out: Vec<u8> = Vec::new();
    match volume {
        Some(v) => {
            push_str(&mut out, "[fat32] fat_lba=");
            assert(out@ =~= utf8("[fat32] fat_lba="));
            push_decimal(&mut out, v.fat_lba as u64);
            push_str(&mut out, " data_lba=");
            push_decimal(&mut out, v.data_lba as u64);
            push_str(&mut out, "\n");
        },
        None => if bytes_per_sector != 512 {
            push_str(&mut out, "[fat32] FAIL: bytes_per_sector=");
            assert(out@ =~= utf8("[fat32] FAIL: bytes_per_sector="));
            push_decimal(&mut out, bytes_per_sector as u64);
            push_str(&mut out, " (need 512)\n");
        } else {
            push_str(&mut out, "[fat32] FAIL: sectors_per_cluster=0\n");
            assert(out@ =~= utf8("[fat32] FAIL: sectors_per_cluster=0\n"));
        },
    }
    out
}

/// Looks at the volume boot record: the volume, and what to print.
fn check_vbr(fs: Fat32, vbr: &[u8; 512]) -> (r: (Option<Fat32>, Vec<u8>))
    ensures
        r.0 == vbr_volume(fs, vbr@),
        r.1@ == vbr_text(fs, vbr@),
{
    let mut out: Vec<u8> = Vec::new();
    let sig: u16 = buf_u16(vbr, 510);
    push_str(&mut out, "[fat32] VBR sig: 0x");
    assert(out@ =~= utf8("[fat32] VBR sig: 0x"));
    push_hex(&mut out, sig as u64, 4, true);
    push_str(&mut out, "\n");
    let volume: Option<Fat32> = get_volume(fs, vbr);
    if sig != BOOT_SIGNATURE {
        push_str(&mut out, "[fat32] FAIL: bad VBR signature\n");
        return (None, out);
    }
    let fields: Vec<u8> = get_fields_text(vbr);
    push_bytes(&mut out, fields.as_slice());
    let verdict: Vec<u8> = get_verdict_text(volume, buf_u16(vbr, 11));
    push_bytes(&mut out, verdict.as_slice());
    (volume, out)
}

enum InitStage {
    Mbr,
    MbrText(Vec<u8>),
    Vbr,
    LastText(Vec<u8>, bool),
    Done(bool),
}

/// The search for the volume under way.
pub struct Fat32Init {
    fs: Fat32,
    stage: InitStage,
}

/// A reply of [`Fat32Init::next`] with its operation taken by its view.
pub open spec fn init_view(r: Next<FsOp, (bool, Fat32)>) -> Next<FsOpView, (bool, Fat32)> {
    match r {
        Next::Op(op) => Next::Op(op@),
        Next::Done(v) => Next::Done(v),
    }
}

impl Fat32Init {
    /// What happens from here on.
    pub closed spec fn run(self, h: Seq<Reply>) -> FsRun<(bool, Fat32)> {
        let fs = self.fs;
        match self.stage {
            InitStage::Mbr => init_run(fs, h),
            InitStage::MbrText(text) => op_run(FsOpView::Print(text@), h).and_then(
                |_r: Reply, h: Seq<Reply>| init_vbr_run(fs, h),
            ),
            InitStage::Vbr => init_vbr_run(fs, h),
            InitStage::LastText(text, ok) => print_run(text@, ok, fs, h),
            InitStage::Done(ok) => Run::Finished((ok, fs), h),
        }
    }

    /// The sector wanted next, the text to print, or whether there is a volume.
    pub fn next(&self) -> (r: Next<FsOp, (bool, Fat32)>)
        ensures
            init_view(r) == self.run(Seq::empty()).asks(),
            r matches Next::Done(v) ==> forall|h: Seq<Reply>| #[trigger]
                self.run(h) == FsRun::Finished(v, h),
    {
        match &self.stage {
            InitStage::Mbr => Next::Op(FsOp::Sector(0)),
            InitStage::MbrText(text) | InitStage::LastText(text, _) => {
                let mut copy: Vec<u8> = Vec::new();
                push_bytes(&mut copy, text.as_slice());
                assert(copy@ =~= text@);
                Next::Op(FsOp::Print(copy))
            },
            InitStage::Vbr => Next::Op(FsOp::Sector(self.fs.partition_lba)),
            InitStage::Done(ok) => Next::Done((*ok, self.fs)),
        }
    }

    /// Goes on with the sector that was asked for; after a text the argument does
    /// not matter.
    pub fn answer(&mut self, sector: Option<&[u8; 512]>)
        requires
            old(self).run(Seq::empty()) is Wants,
        ensures
            forall|h: Seq<Reply>|
                #![trigger final(self).run(h)]
                #![trigger old(self).run(cons(reply_view(sector), h))]
                final(self).run(h) == old(self).run(cons(reply_view(sector), h)),
    {
        match &self.stage {
            InitStage::Mbr => match sector {
                None => {
                    self.stage = InitStage::LastText(get_read_failed_text(0), false);
                },
                Some(mbr) => {
                    let (partition, text) = check_mbr(mbr);
                    match partition {
                        None => {
                            self.stage = InitStage::LastText(text, false);
                        },
                        Some(lba) => {
                            self.fs.partition_lba = lba;
                            self.stage = InitStage::MbrText(text);
                        },
                    }
                },
            },
            InitStage::MbrText(_) => {
                self.stage = InitStage::Vbr;
            },
            InitStage::Vbr => match sector {
                None => {
                    self.stage = InitStage::LastText(
                        get_read_failed_text(self.fs.partition_lba),
                        false,
                    );
                },
                Some(vbr) => {
                    let (volume, text) = check_vbr(self.fs, vbr);
                    match volume {
                        None => {
                            self.stage = InitStage::LastText(text, false);
                        },
                        Some(volume) => {
                            self.fs = volume;
                            self.stage = InitStage::LastText(text, true);
                        },
                    }
                },
            },
            InitStage::LastText(_, ok) => {
                self.stage = InitStage::Done(*ok);
            },
            InitStage::Done(_) => {},
        }
    }
}

/// Finds the FAT32 volume by reading the MBR and the boot record of its first
/// partition. `fs` is what was known before.
pub fn fat32_init(fs: Fat32) -> (m: Fat32Init)
    ensures
        forall|h: Seq<Reply>| #[trigger] m.run(h) == init_run(fs, h),
{
    Fat32Init { fs, stage: InitStage::Mbr }
}

} // verus!
