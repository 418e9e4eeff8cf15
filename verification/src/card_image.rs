//! What is read from a card that holds a FAT32 volume, from the first look at the card
//! to the last byte of a file.
//!
//! The card is given as the bytes on it. Where things lie is said here in bytes of the
//! card, as the format has it: the partition's start in the master boot record, the
//! sizes in the boot record, then the reserved sectors, the tables, and the clusters
//! from number 2 on.
use vstd::prelude::*;
use vstd::arithmetic::div_mod::{lemma_fundamental_div_mod, lemma_fundamental_div_mod_converse};
use crate::session::{completes, performed};
use crate::fat32::{Fat32, FsOpView, Reply, DirEntryView, FileInfoView, debug_text, display_name, file_info, infos_up_to, list_files_debug_run, list_root_run, until_space, data_sector, entries_from, entry_at, entry_hidden, directory_ends, cluster_lba, fat_sector, find_entry, init_run, le16, le32, mbr_partition, read_file_run, vbr_volume, with_partition};
use crate::volume::{Card, bytes_in, chain_sector, delivered, directory_in, ended, held, lemma_missing_file, lemma_listing, lemma_mount, lemma_read_back, link, linked, linked_at, listed, mounted, readable, sectors, stops, stored};
use crate::loader::{LoadOpView, Memory, after, lemma_file_is_loaded, lemma_placed, load_run, loads_from, placed, with_bytes};
use crate::cat::{CatOpView, cat_run, lemma_file_is_shown, sent, shows_from};
use crate::commands::{cat_head, cat_tail, without_cr};
use crate::uart::crlf;

verus! {

/// The bytes on a card.
pub type Image = spec_fn(int) -> u8;

/// The card that gives back what the image holds.
pub open spec fn card_of(image: Image) -> Card {
    |op: FsOpView|
        match op {
            FsOpView::Sector(lba) => Some(Seq::new(512, |i: int| image(512 * lba + i))),
            _ => None,
        }
}

/// The 16-bit number at a byte, the low byte first.
pub open spec fn word16(image: Image, at: int) -> int {
    image(at) + 256 * image(at + 1)
}

/// The 32-bit number at a byte, the low byte first.
pub open spec fn word32(image: Image, at: int) -> int {
    word16(image, at) + 65536 * word16(image, at + 2)
}

/// The numbers that lay a volume out, all in sectors but the last.
pub struct Layout {
    /// Where the partition starts.
    pub partition: int,
    /// How many sectors it reserves.
    pub reserved: int,
    /// How many tables it has, and how large each is.
    pub tables: int,
    pub table_size: int,
    /// The size of a cluster.
    pub cluster_size: int,
    /// The first cluster of the root directory.
    pub root: int,
}

impl Layout {
    /// The first sector of the first table.
    pub open spec fn table(self) -> int {
        self.partition + self.reserved
    }

    /// The first sector behind the last table: that of cluster 2.
    pub open spec fn data(self) -> int {
        self.partition + self.reserved + self.tables * self.table_size
    }

    /// The first sector of a cluster.
    pub open spec fn cluster(self, c: int) -> int {
        self.data() + (c - 2) * self.cluster_size
    }

    /// A cluster that a table has an entry for, and that lies on a card with 2^32
    /// sectors.
    pub open spec fn has_cluster(self, c: int) -> bool {
        2 <= c < 0x0FFF_FFF8 && 4 * c + 4 <= 512 * self.table_size && self.cluster(c)
            + self.cluster_size <= 0x1_0000_0000
    }
}

/// The image holds a volume with this layout.
pub open spec fn laid_out(image: Image, l: Layout) -> bool {
    let mbr_type = image(450);
    let boot = 512 * l.partition;
    // The master boot record.
    &&& word16(image, 510) == 0xAA55
    &&& mbr_type != 0 && mbr_type != 0x82 && mbr_type != 0x83 && mbr_type != 0x8E
    &&& word32(image, 454) == l.partition
    // The boot record of the partition.
    &&& word16(image, boot + 510) == 0xAA55
    &&& word16(image, boot + 11) == 512
    &&& image(boot + 13) == l.cluster_size && l.cluster_size > 0
    &&& word16(image, boot + 14) == l.reserved
    &&& image(boot + 16) == l.tables
    &&& word32(image, boot + 36) == l.table_size
    &&& word32(image, boot + 44) == l.root
    // All of it lies on a card with 2^32 sectors.
    &&& l.table() + l.table_size <= 0x1_0000_0000
    &&& l.data() < 0x1_0000_0000
}

/// What the first table says of a cluster: the low 28 bits of the word at four times
/// its number.
pub open spec fn table_entry(image: Image, l: Layout, c: int) -> int {
    word32(image, 512 * l.table() + 4 * c) % 0x1000_0000
}

/// Each cluster of the chain exists, and the table leads from each to the next.
pub open spec fn chained(image: Image, l: Layout, chain: Seq<u32>) -> bool {
    &&& chain.len() > 0
    &&& forall|i: int| 0 <= i < chain.len() ==> l.has_cluster(#[trigger] chain[i] as int)
    &&& forall|i: int|
        0 <= i < chain.len() - 1 ==> table_entry(image, l, #[trigger] chain[i] as int) == chain[i
            + 1]
}

/// The table has no cluster behind the last one of the chain.
pub open spec fn chain_ends(image: Image, l: Layout, chain: Seq<u32>) -> bool {
    table_entry(image, l, chain.last() as int) >= 0x0FFF_FFF8
}

/// Byte `i` of what is stored in the clusters of a chain, one after the other.
pub open spec fn chain_byte(image: Image, l: Layout, chain: Seq<u32>, i: int) -> u8 {
    let n = 512 * l.cluster_size;
    image(512 * l.cluster(chain[i / n] as int) + i % n)
}

/// How many bytes the clusters of a chain hold.
pub open spec fn chain_size(l: Layout, chain: Seq<u32>) -> int {
    512 * l.cluster_size * chain.len()
}

/// Byte `k` of record `r` of a directory; a record has 32 bytes.
pub open spec fn record(image: Image, l: Layout, dir: Seq<u32>, r: int, k: int) -> u8 {
    chain_byte(image, l, dir, 32 * r + k)
}

/// The record is that of a file or directory of this name: not deleted, no part of a
/// long name, no label.
pub open spec fn record_named(
    image: Image,
    l: Layout,
    dir: Seq<u32>,
    r: int,
    name83: Seq<u8>,
) -> bool {
    &&& name83 == Seq::new(11, |k: int| record(image, l, dir, r, k))
    &&& record(image, l, dir, r, 0) != 0xE5
    &&& record(image, l, dir, r, 11) != 0x0F
    &&& record(image, l, dir, r, 11) & 0x08 == 0
}

/// The directory in these clusters is that of the root, and it ends: with its clusters,
/// or with a record that starts with a zero.
pub open spec fn root_directory(image: Image, l: Layout, dir: Seq<u32>) -> bool {
    &&& chained(image, l, dir)
    &&& dir[0] == l.root
    &&& chain_ends(image, l, dir) || exists|r: int|
        0 <= 32 * r < chain_size(l, dir) && #[trigger] record(image, l, dir, r, 0) == 0
}

/// Record `r` of the directory is the first of this name.
pub open spec fn first_named(
    image: Image,
    l: Layout,
    dir: Seq<u32>,
    r: int,
    name83: Seq<u8>,
) -> bool {
    &&& 0 <= 32 * r < chain_size(l, dir)
    &&& record_named(image, l, dir, r, name83)
    &&& forall|q: int|
        0 <= q < r ==> !record_named(image, l, dir, q, name83) && #[trigger] record(
            image,
            l,
            dir,
            q,
            0,
        ) != 0
    &&& record(image, l, dir, r, 0) != 0
}

/// The first cluster that a record names.
pub open spec fn record_cluster(image: Image, l: Layout, dir: Seq<u32>, r: int) -> int {
    record(image, l, dir, r, 26) + 256 * record(image, l, dir, r, 27) + 65536 * record(
        image,
        l,
        dir,
        r,
        20,
    ) + 16777216 * record(image, l, dir, r, 21)
}

/// The size that a record names.
pub open spec fn record_size(image: Image, l: Layout, dir: Seq<u32>, r: int) -> int {
    record(image, l, dir, r, 28) + 256 * record(image, l, dir, r, 29) + 65536 * record(
        image,
        l,
        dir,
        r,
        30,
    ) + 16777216 * record(image, l, dir, r, 31)
}

/// What is known of a volume with this layout.
pub open spec fn volume_of(l: Layout) -> Fat32 {
    Fat32 {
        partition_lba: l.partition as u32,
        fat_lba: l.table() as u32,
        data_lba: l.data() as u32,
        root_cluster: l.root as u32,
        sec_per_clus: l.cluster_size as u32,
        ready: true,
    }
}

proof fn lemma_numbers(image: Image, lba: u32, o: int)
    requires
        0 <= o,
        o + 4 <= 512,
    ensures
        le16(card_of(image)(FsOpView::Sector(lba))->Some_0, o) == word16(image, 512 * lba + o),
        le32(card_of(image)(FsOpView::Sector(lba))->Some_0, o) == word32(image, 512 * lba + o),
        0 <= word16(image, 512 * lba + o) < 0x1_0000,
        0 <= word32(image, 512 * lba + o) < 0x1_0000_0000,
{
    let s = card_of(image)(FsOpView::Sector(lba))->Some_0;
    assert(s[o] == image(512 * lba + o));
    assert(s[o + 1] == image(512 * lba + o + 1));
    assert(s[o + 2] == image(512 * lba + o + 2));
    assert(s[o + 3] == image(512 * lba + o + 3));
}

/// Mounting finds the volume: its table and its data start where the layout says.
pub proof fn lemma_volume_is_found(image: Image, l: Layout, fs: Fat32) -> (h: Seq<Reply>)
    requires
        laid_out(image, l),
    ensures
        completes(|h: Seq<Reply>| init_run(fs, h), card_of(image), h, (true, volume_of(l))),
        volume_of(l).fat_lba == l.partition + l.reserved,
        volume_of(l).data_lba == l.partition + l.reserved + l.tables * l.table_size,
        volume_of(l).sec_per_clus == l.cluster_size,
        volume_of(l).root_cluster == l.root,
{
    let card = card_of(image);
    let p = l.partition as u32;
    let mbr = card(FsOpView::Sector(0))->Some_0;
    lemma_numbers(image, 0, 454);
    lemma_numbers(image, 0, 508);
    assert(le16(mbr, 510) == word16(image, 510));
    assert(mbr[450] == image(450));
    assert(mbr_partition(mbr) == Some(p));
    let boot = card(FsOpView::Sector(p))->Some_0;
    lemma_numbers(image, p, 11);
    lemma_numbers(image, p, 14);
    lemma_numbers(image, p, 36);
    lemma_numbers(image, p, 44);
    assert(le16(boot, 510) == word16(image, 512 * p + 510));
    assert(boot[13] == image(512 * p + 13));
    assert(boot[16] == image(512 * p + 16));
    assert(0 <= l.tables * l.table_size) by (nonlinear_arith)
        requires
            0 <= l.tables,
            0 <= l.table_size,
    ;
    let known = with_partition(fs, p);
    let table = l.partition + l.reserved;
    vstd::arithmetic::div_mod::lemma_small_mod(table as nat, 0x1_0000_0000);
    vstd::arithmetic::div_mod::lemma_small_mod(l.data() as nat, 0x1_0000_0000);
    assert(vbr_volume(known, boot) == Some(volume_of(l)));
    lemma_mount(fs, card)
}

/// The chain that is followed is the one in the table.
proof fn lemma_link(image: Image, l: Layout, c: u32)
    requires
        laid_out(image, l),
        l.has_cluster(c as int),
    ensures
        link(volume_of(l), card_of(image), c) == table_entry(image, l, c as int),
{
    let fs = volume_of(l);
    lemma_numbers(image, 0, 454);
    lemma_numbers(image, l.partition as u32, 14);
    let lba = fat_sector(fs, c);
    assert(fs.fat_lba == l.table());
    assert(c as int / 128 < l.table_size);
    assert(lba == l.table() + c as int / 128) by {
        vstd::arithmetic::div_mod::lemma_small_mod(
            (l.table() + c as int / 128) as nat,
            0x1_0000_0000,
        );
    }
    lemma_numbers(image, lba, 4 * (c as int % 128));
    assert(512 * lba + 4 * (c as int % 128) == 512 * l.table() + 4 * c);
}

proof fn lemma_linked(image: Image, l: Layout, chain: Seq<u32>)
    requires
        laid_out(image, l),
        chained(image, l, chain),
    ensures
        linked(volume_of(l), card_of(image), chain),
        ended(volume_of(l), card_of(image), chain) == chain_ends(image, l, chain),
{
    let fs = volume_of(l);
    let card = card_of(image);
    assert forall|i: int| 0 <= i < chain.len() - 1 implies #[trigger] linked_at(
        fs,
        card,
        chain,
        i,
    ) by {
        lemma_link(image, l, chain[i]);
        assert(l.has_cluster(chain[i + 1] as int));
    }
    lemma_link(image, l, chain.last());
}

/// Sector `k` of what a chain stores.
proof fn lemma_sector(image: Image, l: Layout, chain: Seq<u32>, k: int)
    requires
        laid_out(image, l),
        chained(image, l, chain),
        0 <= k < l.cluster_size * chain.len(),
    ensures
        0 <= k / l.cluster_size < chain.len(),
        chain_sector(volume_of(l), chain, k) == l.cluster(chain[k / l.cluster_size] as int) + k
            % l.cluster_size,
        stored(volume_of(l), card_of(image), chain, k) == Some(
            Seq::new(512, |j: int| chain_byte(image, l, chain, 512 * k + j)),
        ),
{
    let fs = volume_of(l);
    let n = l.cluster_size;
    lemma_numbers(image, 0, 454);
    lemma_numbers(image, l.partition as u32, 14);
    lemma_numbers(image, l.partition as u32, 36);
    lemma_fundamental_div_mod(k, n);
    let q = k / n;
    let s = k % n;
    assert(0 <= s < n) by {
        vstd::arithmetic::div_mod::lemma_mod_bound(k, n);
    }
    assert(0 <= q < chain.len()) by (nonlinear_arith)
        requires
            k == n * q + s,
            0 <= s < n,
            0 <= k < n * chain.len(),
    ;
    let c = chain[q] as int;
    assert(l.has_cluster(chain[q] as int));
    assert(0 <= (c - 2) * n) by (nonlinear_arith)
        requires
            2 <= c,
            0 < n,
    ;
    assert(0 <= l.tables * l.table_size) by (nonlinear_arith)
        requires
            0 <= l.tables,
            0 <= l.table_size,
    ;
    assert(fs.sec_per_clus == n && fs.data_lba == l.data());
    let lba = l.cluster(c) + s;
    vstd::arithmetic::div_mod::lemma_small_mod(l.cluster(c) as nat, 0x1_0000_0000);
    vstd::arithmetic::div_mod::lemma_small_mod(lba as nat, 0x1_0000_0000);
    assert(cluster_lba(fs, chain[q]) == l.cluster(c));
    assert(data_sector(fs, chain[q], s as u32) == lba);
    assert(chain_sector(fs, chain, k) == lba);
    let whole = stored(fs, card_of(image), chain, k)->Some_0;
    assert forall|j: int| 0 <= j < 512 implies #[trigger] whole[j] == chain_byte(
        image,
        l,
        chain,
        512 * k + j,
    ) by {
        let i = 512 * k + j;
        assert(i == q * (512 * n) + (512 * s + j)) by (nonlinear_arith)
            requires
                i == 512 * k + j,
                k == n * q + s,
        ;
        lemma_fundamental_div_mod_converse(i, 512 * n, q, 512 * s + j);
        assert(whole[j] == image(512 * lba + j));
    }
    assert(whole =~= Seq::new(512, |j: int| chain_byte(image, l, chain, 512 * k + j)));
}

/// The bytes of a file are those that its clusters hold.
proof fn lemma_bytes(image: Image, l: Layout, chain: Seq<u32>, size: int)
    requires
        laid_out(image, l),
        chained(image, l, chain),
        0 <= size <= chain_size(l, chain),
    ensures
        bytes_in(volume_of(l), card_of(image), chain, 0, size) == Seq::new(
            size as nat,
            |i: int| chain_byte(image, l, chain, i),
        ),
        readable(volume_of(l), card_of(image), chain, size),
        512 * sectors(volume_of(l), chain) == chain_size(l, chain),
{
    let fs = volume_of(l);
    let n = l.cluster_size;
    assert(512 * (chain.len() * n) == 512 * n * chain.len() && n * chain.len() == chain.len() * n)
        by (nonlinear_arith);
    assert forall|k: int| 0 <= k < sectors(fs, chain) implies (#[trigger] stored(
        fs,
        card_of(image),
        chain,
        k,
    ) matches Some(s) && s.len() == 512) by {
        lemma_sector(image, l, chain, k);
    }
    assert forall|i: int| 0 <= i < size implies #[trigger] bytes_in(
        fs,
        card_of(image),
        chain,
        0,
        size,
    )[i] == chain_byte(image, l, chain, i) by {
        lemma_sector(image, l, chain, i / 512);
        assert(512 * (i / 512) + i % 512 == i);
    }
    assert(bytes_in(fs, card_of(image), chain, 0, size) =~= Seq::new(
        size as nat,
        |i: int| chain_byte(image, l, chain, i),
    ));
}

// ── The directory ──────────────────────────────────────────────────────────

proof fn lemma_find_concat(a: Seq<DirEntryView>, b: Seq<DirEntryView>, name83: Seq<u8>)
    ensures
        find_entry(a + b, name83) == if find_entry(a, name83) is Some {
            find_entry(a, name83)
        } else {
            find_entry(b, name83)
        },
    decreases a.len(),
{
    if a.len() == 0 {
        assert(a + b =~= b);
    } else {
        assert((a + b).drop_first() =~= a.drop_first() + b);
        lemma_find_concat(a.drop_first(), b, name83);
    }
}

/// Entry `i` of a sector has this name.
spec fn named_here(sector: Seq<u8>, i: int, name83: Seq<u8>) -> bool {
    !entry_hidden(sector, i) && entry_at(sector, i).name == name83
}

/// The search in a sector comes upon entry `t` first.
proof fn lemma_find_here(sector: Seq<u8>, i: int, t: int, name83: Seq<u8>)
    requires
        0 <= i <= t < 16,
        forall|q: int| i <= q < t ==> !named_here(sector, q, name83) && #[trigger] sector[32 * q]
            != 0,
        named_here(sector, t, name83),
        sector[32 * t] != 0,
    ensures
        find_entry(entries_from(sector, i), name83) == Some(entry_at(sector, t)),
    decreases t - i,
{
    let rest = entries_from(sector, i + 1);
    if i < t {
        assert(!named_here(sector, i, name83) && sector[32 * i] != 0);
        lemma_find_here(sector, i + 1, t, name83);
    }
    if !entry_hidden(sector, i) {
        assert((seq![entry_at(sector, i)] + rest).drop_first() =~= rest);
    }
}

/// The search in a sector comes upon nothing.
proof fn lemma_find_not_here(sector: Seq<u8>, i: int, t: int, name83: Seq<u8>)
    requires
        0 <= i <= t <= 16,
        forall|q: int| i <= q < t ==> !named_here(sector, q, name83) && #[trigger] sector[32 * q]
            != 0,
        t < 16 ==> sector[32 * t] == 0,
    ensures
        find_entry(entries_from(sector, i), name83) is None,
    decreases t - i,
{
    let rest = entries_from(sector, i + 1);
    if i < t {
        assert(!named_here(sector, i, name83) && sector[32 * i] != 0);
        lemma_find_not_here(sector, i + 1, t, name83);
        if !entry_hidden(sector, i) {
            assert((seq![entry_at(sector, i)] + rest).drop_first() =~= rest);
        }
    }
}

/// Record `16 * k + i` of a directory is entry `i` of its sector `k`.
proof fn lemma_record(image: Image, l: Layout, dir: Seq<u32>, k: int, i: int, name83: Seq<u8>)
    requires
        laid_out(image, l),
        chained(image, l, dir),
        0 <= k < l.cluster_size * dir.len(),
        0 <= i < 16,
        name83.len() == 11,
    ensures
        ({
            let s = stored(volume_of(l), card_of(image), dir, k)->Some_0;
            let r = 16 * k + i;
            &&& s[32 * i] == record(image, l, dir, r, 0)
            &&& named_here(s, i, name83) == record_named(image, l, dir, r, name83)
            &&& entry_at(s, i).cluster == record_cluster(image, l, dir, r)
            &&& entry_at(s, i).size == record_size(image, l, dir, r)
            &&& entry_at(s, i).attr == record(image, l, dir, r, 11)
        }),
{
    lemma_sector(image, l, dir, k);
    let s = stored(volume_of(l), card_of(image), dir, k)->Some_0;
    let r = 16 * k + i;
    assert forall|j: int| 0 <= j < 32 implies #[trigger] s[32 * i + j] == record(
        image,
        l,
        dir,
        r,
        j,
    ) by {}
    assert(s[32 * i + 0] == record(image, l, dir, r, 0));
    let own = Seq::new(11, |j: int| record(image, l, dir, r, j));
    assert(s.subrange(32 * i, 32 * i + 11) =~= own) by {
        assert forall|j: int| 0 <= j < 11 implies s.subrange(32 * i, 32 * i + 11)[j] == own[j] by {
            assert(s[32 * i + j] == record(image, l, dir, r, j));
        }
    }
    assert(s[32 * i + 11] == record(image, l, dir, r, 11));
    assert(s[32 * i + 20] == record(image, l, dir, r, 20));
    assert(s[32 * i + 21] == record(image, l, dir, r, 21));
    assert(s[32 * i + 26] == record(image, l, dir, r, 26));
    assert(s[32 * i + 27] == record(image, l, dir, r, 27));
    assert(s[32 * i + 28] == record(image, l, dir, r, 28));
    assert(s[32 * i + 29] == record(image, l, dir, r, 29));
    assert(s[32 * i + 30] == record(image, l, dir, r, 30));
    assert(s[32 * i + 31] == record(image, l, dir, r, 31));
}

/// All sixteen records of a sector are in use and have other names.
proof fn lemma_sector_without(
    image: Image,
    l: Layout,
    dir: Seq<u32>,
    k: int,
    name83: Seq<u8>,
)
    requires
        laid_out(image, l),
        chained(image, l, dir),
        0 <= k < l.cluster_size * dir.len(),
        name83.len() == 11,
        forall|q: int|
            16 * k <= q < 16 * k + 16 ==> !record_named(image, l, dir, q, name83)
                && #[trigger] record(image, l, dir, q, 0) != 0,
    ensures
        ({
            let s = stored(volume_of(l), card_of(image), dir, k)->Some_0;
            !directory_ends(s) && find_entry(entries_from(s, 0), name83) is None
        }),
{
    let s = stored(volume_of(l), card_of(image), dir, k)->Some_0;
    assert forall|i: int| 0 <= i < 16 implies !named_here(s, i, name83) && #[trigger] s[32 * i]
        != 0 by {
        lemma_record(image, l, dir, k, i, name83);
        assert(record(image, l, dir, 16 * k + i, 0) != 0);
    }
    lemma_find_not_here(s, 0, 16, name83);
}

/// The search from sector `k` on comes upon record `r`.
proof fn lemma_found(
    image: Image,
    l: Layout,
    dir: Seq<u32>,
    k: int,
    r: int,
    name83: Seq<u8>,
)
    requires
        laid_out(image, l),
        chained(image, l, dir),
        first_named(image, l, dir, r, name83),
        0 <= k,
        16 * k <= r,
    ensures
        find_entry(listed(volume_of(l), card_of(image), dir, k), name83) == Some(
            DirEntryView {
                name: name83,
                cluster: record_cluster(image, l, dir, r) as u32,
                size: record_size(image, l, dir, r) as u32,
                attr: record(image, l, dir, r, 11),
            },
        ),
    decreases r - 16 * k,
{
    let fs = volume_of(l);
    let card = card_of(image);
    lemma_numbers(image, 0, 454);
    assert(k < l.cluster_size * dir.len()) by {
        assert(512 * l.cluster_size * dir.len() == 512 * (l.cluster_size * dir.len()))
            by (nonlinear_arith);
    }
    assert(sectors(fs, dir) == l.cluster_size * dir.len()) by (nonlinear_arith)
        requires
            sectors(fs, dir) == dir.len() * l.cluster_size,
    ;
    lemma_sector(image, l, dir, k);
    let s = stored(fs, card, dir, k)->Some_0;
    let more = listed(fs, card, dir, k + 1);
    if r < 16 * k + 16 {
        let t = r - 16 * k;
        assert forall|q: int| 0 <= q < t implies !named_here(s, q, name83) && #[trigger] s[32 * q]
            != 0 by {
            lemma_record(image, l, dir, k, q, name83);
            assert(record(image, l, dir, 16 * k + q, 0) != 0);
        }
        lemma_record(image, l, dir, k, t, name83);
        lemma_find_here(s, 0, t, name83);
        lemma_find_concat(entries_from(s, 0), more, name83);
    } else {
        lemma_sector_without(image, l, dir, k, name83);
        lemma_found(image, l, dir, k + 1, r, name83);
        lemma_find_concat(entries_from(s, 0), more, name83);
    }
}

/// The walk through the directory comes to an end.
proof fn lemma_directory(image: Image, l: Layout, dir: Seq<u32>)
    requires
        laid_out(image, l),
        root_directory(image, l, dir),
    ensures
        directory_in(volume_of(l), card_of(image), dir),
        dir[0] == volume_of(l).root_cluster,
        volume_of(l).ready,
        volume_of(l).sec_per_clus > 0,
{
    let fs = volume_of(l);
    let card = card_of(image);
    lemma_linked(image, l, dir);
    assert(l.has_cluster(dir[0] as int));
    if !chain_ends(image, l, dir) {
        let r = choose|r: int|
            0 <= 32 * r < chain_size(l, dir) && #[trigger] record(image, l, dir, r, 0) == 0;
        let k = r / 16;
        assert(512 * l.cluster_size * dir.len() == 512 * (l.cluster_size * dir.len()))
            by (nonlinear_arith);
        assert(sectors(fs, dir) == l.cluster_size * dir.len()) by (nonlinear_arith)
            requires
                sectors(fs, dir) == dir.len() * l.cluster_size,
        ;
        lemma_sector(image, l, dir, k);
        lemma_record(image, l, dir, k, r % 16, Seq::new(11, |i: int| 0u8));
        let s = stored(fs, card, dir, k)->Some_0;
        assert(s[32 * (r % 16)] == 0);
        assert(stops(stored(fs, card, dir, k)));
    }
}

// ── Files ──────────────────────────────────────────────────────────────────

/// The file of this name is stored in the clusters of `file`: they start at the cluster
/// that its record names, and hold as many bytes as it names.
pub open spec fn holds_file(
    image: Image,
    l: Layout,
    dir: Seq<u32>,
    r: int,
    name83: Seq<u8>,
    file: Seq<u32>,
) -> bool {
    &&& laid_out(image, l)
    &&& root_directory(image, l, dir)
    &&& first_named(image, l, dir, r, name83)
    &&& chained(image, l, file)
    &&& file[0] == record_cluster(image, l, dir, r)
    &&& record_size(image, l, dir, r) <= chain_size(l, file)
}

/// The first bytes of what the clusters of a file hold, as many as its record says.
pub open spec fn file_content(
    image: Image,
    l: Layout,
    dir: Seq<u32>,
    r: int,
    file: Seq<u32>,
) -> Seq<u8> {
    Seq::new(record_size(image, l, dir, r) as nat, |i: int| chain_byte(image, l, file, i))
}

/// What the drivers need to know of a file that the image holds.
proof fn lemma_held(
    image: Image,
    l: Layout,
    dir: Seq<u32>,
    r: int,
    name83: Seq<u8>,
    file: Seq<u32>,
)
    requires
        holds_file(image, l, dir, r, name83, file),
    ensures
        ({
            let fs = volume_of(l);
            let card = card_of(image);
            let found = find_entry(listed(fs, card, dir, 0), name83);
            let size = record_size(image, l, dir, r);
            &&& found matches Some(e)
            &&& file[0] == e.cluster
            &&& e.size == size
            &&& readable(fs, card, file, size)
            &&& size <= 512 * sectors(fs, file)
            &&& held(fs, file, size) == size
            &&& bytes_in(fs, card, file, 0, size) == file_content(image, l, dir, r, file)
        }),
        linked(volume_of(l), card_of(image), file),
        directory_in(volume_of(l), card_of(image), dir),
        dir[0] == volume_of(l).root_cluster,
        volume_of(l).ready,
        volume_of(l).sec_per_clus > 0,
{
    lemma_found(image, l, dir, 0, r, name83);
    lemma_directory(image, l, dir);
    lemma_linked(image, l, file);
    lemma_bytes(image, l, file, record_size(image, l, dir, r));
}

/// From the bytes of a card to the bytes of a file: mounting finds the volume, and
/// reading the file by its name then hands out what its clusters hold, in order, and
/// says that it was read.
pub proof fn lemma_file_on_card_is_read(
    image: Image,
    l: Layout,
    dir: Seq<u32>,
    r: int,
    name83: Seq<u8>,
    file: Seq<u32>,
    before: Fat32,
) -> (h: (Seq<Reply>, Fat32, Seq<Reply>))
    requires
        holds_file(image, l, dir, r, name83, file),
    ensures
        ({
            let (mount, fs, read) = h;
            let script = |h: Seq<Reply>| read_file_run(fs, name83, h);
            &&& completes(|h: Seq<Reply>| init_run(before, h), card_of(image), mount, (true, fs))
            &&& completes(script, card_of(image), read, true)
            &&& delivered(performed(script, read)) == file_content(image, l, dir, r, file)
        }),
{
    let fs = volume_of(l);
    lemma_held(image, l, dir, r, name83, file);
    let mount = lemma_volume_is_found(image, l, before);
    let read = lemma_read_back(fs, card_of(image), dir, name83, file);
    (mount, fs, read)
}

/// The same for loading: afterwards the file lies in memory, and nothing else has
/// changed there.
pub proof fn lemma_file_on_card_is_loaded(
    image: Image,
    l: Layout,
    dir: Seq<u32>,
    r: int,
    name83: Seq<u8>,
    file: Seq<u32>,
    before: Fat32,
    answers: spec_fn(LoadOpView) -> Reply,
    dest: int,
    mem: Memory,
) -> (h: (Seq<Reply>, Fat32, Seq<Reply>))
    requires
        holds_file(image, l, dir, r, name83, file),
        loads_from(answers, card_of(image)),
    ensures
        ({
            let (mount, fs, load) = h;
            let script = |h: Seq<Reply>| load_run(fs, name83, dest, h);
            let content = file_content(image, l, dir, r, file);
            let now = after(mem, performed(script, load));
            &&& completes(|h: Seq<Reply>| init_run(before, h), card_of(image), mount, (true, fs))
            &&& completes(script, answers, load, content.len() as int)
            &&& forall|a: int| #[trigger]
                now(a) == if dest <= a < dest + content.len() {
                    content[a - dest]
                } else {
                    mem(a)
                }
        }),
{
    let fs = volume_of(l);
    lemma_held(image, l, dir, r, name83, file);
    let mount = lemma_volume_is_found(image, l, before);
    let load = lemma_file_is_loaded(fs, card_of(image), answers, dir, name83, file, dest, mem);
    (mount, fs, load)
}

/// The same for showing: heading, the file without carriage returns and at most 2048
/// bytes of it, closing line.
pub proof fn lemma_file_on_card_is_shown(
    image: Image,
    l: Layout,
    dir: Seq<u32>,
    r: int,
    name83: Seq<u8>,
    file: Seq<u32>,
    before: Fat32,
    answers: spec_fn(CatOpView) -> Reply,
    args: Seq<char>,
) -> (h: (Seq<Reply>, Fat32, Seq<Reply>))
    requires
        holds_file(image, l, dir, r, name83, file),
        shows_from(answers, card_of(image)),
    ensures
        ({
            let (mount, fs, show) = h;
            let script = |h: Seq<Reply>| cat_run(fs, name83, args, h);
            let body = file_content(image, l, dir, r, file).filter(|c: u8| c != 0x0D);
            &&& completes(|h: Seq<Reply>| init_run(before, h), card_of(image), mount, (true, fs))
            &&& completes(script, answers, show, ())
            &&& sent(performed(script, show)) == crlf(cat_head(args)) + body.take(
                if body.len() <= 2048 {
                    body.len() as int
                } else {
                    2048
                },
            ) + crlf(cat_tail(true, args))
        }),
{
    let fs = volume_of(l);
    lemma_held(image, l, dir, r, name83, file);
    let mount = lemma_volume_is_found(image, l, before);
    let show = lemma_file_is_shown(fs, card_of(image), answers, dir, name83, args, file);
    let content = file_content(image, l, dir, r, file);
    lemma_without_cr_is_filter(content);
    let body = content.filter(|c: u8| c != 0x0D);
    if body.len() <= 2048 {
        assert(body.take(body.len() as int) =~= body);
    }
    (mount, fs, show)
}

/// Leaving carriage returns out is keeping the others.
proof fn lemma_without_cr_is_filter(s: Seq<u8>)
    ensures
        without_cr(s) == s.filter(|c: u8| c != 0x0D),
    decreases s.len(),
{
    let p = |c: u8| c != 0x0D;
    reveal_with_fuel(Seq::filter, 2);
    if s.len() == 0 {
        assert(s.filter(p) =~= Seq::empty());
    } else {
        let a = seq![s[0]];
        let b = s.drop_first();
        lemma_without_cr_is_filter(b);
        Seq::filter_distributes_over_add(a, b, p);
        assert(s =~= a + b);
        assert(a.drop_last() =~= Seq::empty());
        assert(without_cr(s) =~= a.filter(p) + b.filter(p));
    }
}

/// No record of the directory, up to its end, has this name.
pub open spec fn none_named(image: Image, l: Layout, dir: Seq<u32>, name83: Seq<u8>) -> bool {
    forall|q: int|
        0 <= 32 * q < chain_size(l, dir) && record_named(image, l, dir, q, name83) ==> exists|
            e: int,
        |
            0 <= e <= q && #[trigger] record(image, l, dir, e, 0) == 0
}

/// The search from sector `k` on comes upon nothing.
proof fn lemma_not_found(image: Image, l: Layout, dir: Seq<u32>, k: int, name83: Seq<u8>)
    requires
        laid_out(image, l),
        chained(image, l, dir),
        none_named(image, l, dir, name83),
        name83.len() == 11,
        0 <= k <= l.cluster_size * dir.len(),
        forall|q: int| 0 <= q < 16 * k ==> #[trigger] record(image, l, dir, q, 0) != 0,
    ensures
        find_entry(listed(volume_of(l), card_of(image), dir, k), name83) is None,
    decreases l.cluster_size * dir.len() - k,
{
    let fs = volume_of(l);
    let card = card_of(image);
    lemma_numbers(image, 0, 454);
    assert(512 * l.cluster_size * dir.len() == 512 * (l.cluster_size * dir.len()))
        by (nonlinear_arith);
    assert(sectors(fs, dir) == l.cluster_size * dir.len()) by (nonlinear_arith)
        requires
            sectors(fs, dir) == dir.len() * l.cluster_size,
    ;
    if k < l.cluster_size * dir.len() {
        lemma_sector(image, l, dir, k);
        let s = stored(fs, card, dir, k)->Some_0;
        let more = listed(fs, card, dir, k + 1);
        assert forall|i: int| 0 <= i < 16 implies #[trigger] s[32 * i] == record(
            image,
            l,
            dir,
            16 * k + i,
            0,
        ) && named_here(s, i, name83) == record_named(image, l, dir, 16 * k + i, name83) by {
            lemma_record(image, l, dir, k, i, name83);
        }
        let t = lemma_first_end(s, 0);
        assert forall|i: int| 0 <= i < t implies !named_here(s, i, name83) && #[trigger] s[32 * i]
            != 0 by {
            if record_named(image, l, dir, 16 * k + i, name83) {
                let e = choose|e: int|
                    0 <= e <= 16 * k + i && #[trigger] record(image, l, dir, e, 0) == 0;
                assert(e >= 16 * k);
                assert(s[32 * (e - 16 * k)] == 0);
            }
        }
        lemma_find_not_here(s, 0, t, name83);
        lemma_find_concat(entries_from(s, 0), more, name83);
        if t == 16 {
            assert forall|q: int| 0 <= q < 16 * (k + 1) implies #[trigger] record(
                image,
                l,
                dir,
                q,
                0,
            ) != 0 by {
                if q >= 16 * k {
                    assert(s[32 * (q - 16 * k)] != 0);
                }
            }
            lemma_not_found(image, l, dir, k + 1, name83);
        } else {
            assert(directory_ends(s));
        }
    }
}

/// The first entry of a sector that ends the directory, or 16.
proof fn lemma_first_end(sector: Seq<u8>, i: int) -> (t: int)
    requires
        0 <= i <= 16,
    ensures
        i <= t <= 16,
        forall|q: int| i <= q < t ==> #[trigger] sector[32 * q] != 0,
        t < 16 ==> sector[32 * t] == 0,
    decreases 16 - i,
{
    if i == 16 || sector[32 * i] == 0 {
        i
    } else {
        lemma_first_end(sector, i + 1)
    }
}

/// A name that the directory does not hold is not found: nothing is handed out.
pub proof fn lemma_file_not_on_card(
    image: Image,
    l: Layout,
    dir: Seq<u32>,
    name83: Seq<u8>,
    before: Fat32,
) -> (h: (Seq<Reply>, Fat32, Seq<Reply>))
    requires
        laid_out(image, l),
        root_directory(image, l, dir),
        none_named(image, l, dir, name83),
        name83.len() == 11,
    ensures
        ({
            let (mount, fs, read) = h;
            let script = |h: Seq<Reply>| read_file_run(fs, name83, h);
            &&& completes(|h: Seq<Reply>| init_run(before, h), card_of(image), mount, (true, fs))
            &&& completes(script, card_of(image), read, false)
            &&& delivered(performed(script, read)).len() == 0
        }),
{
    let fs = volume_of(l);
    lemma_directory(image, l, dir);
    assert(0 <= l.cluster_size * dir.len()) by (nonlinear_arith)
        requires
            0 < l.cluster_size,
    ;
    lemma_not_found(image, l, dir, 0, name83);
    let mount = lemma_volume_is_found(image, l, before);
    let read = lemma_missing_file(fs, card_of(image), dir, name83);
    (mount, fs, read)
}

// ── Cards without a usable volume ──────────────────────────────────────────

/// The card that gives back what the image holds, but for the sectors that cannot be
/// read.
pub open spec fn worn_card(image: Image, bad: spec_fn(u32) -> bool) -> Card {
    |op: FsOpView|
        match op {
            FsOpView::Sector(lba) => if bad(lba) {
                None
            } else {
                card_of(image)(op)
            },
            _ => None,
        }
}

/// Where the first partition starts.
pub open spec fn partition_start(image: Image) -> int {
    word32(image, 454)
}

/// The card has a master boot record that can be read and does not say that its first
/// partition is empty or one of Linux's, and that partition has a boot record that can
/// be read and has sectors of 512 bytes and clusters that are not empty.
pub open spec fn usable(image: Image, bad: spec_fn(u32) -> bool) -> bool {
    let boot = 512 * partition_start(image);
    &&& !bad(0)
    &&& image(510) == 0x55 && image(511) == 0xAA
    &&& image(450) != 0 && image(450) != 0x82 && image(450) != 0x83 && image(450) != 0x8E
    &&& !bad(partition_start(image) as u32)
    &&& image(boot + 510) == 0x55 && image(boot + 511) == 0xAA
    &&& image(boot + 11) == 0 && image(boot + 12) == 2
    &&& image(boot + 13) != 0
}

/// A volume is found on exactly the cards that are usable. Where none is found, what was
/// known before stays known, but for where the partition starts.
pub proof fn lemma_usable_cards(image: Image, bad: spec_fn(u32) -> bool, before: Fat32) -> (r: (
    Seq<Reply>,
    Fat32,
))
    ensures
        completes(
            |h: Seq<Reply>| init_run(before, h),
            worn_card(image, bad),
            r.0,
            (usable(image, bad), r.1),
        ),
        usable(image, bad) ==> r.1.ready && r.1.partition_lba == partition_start(image),
        !usable(image, bad) ==> r.1 == (Fat32 { partition_lba: r.1.partition_lba, ..before }),
{
    let card = worn_card(image, bad);
    let h = lemma_mount(before, card);
    let mbr = card_of(image)(FsOpView::Sector(0))->Some_0;
    lemma_numbers(image, 0, 454);
    lemma_numbers(image, 0, 508);
    assert(mbr[510] == image(510) && mbr[511] == image(511) && mbr[450] == image(450));
    let p = partition_start(image) as u32;
    let boot = card_of(image)(FsOpView::Sector(p))->Some_0;
    lemma_numbers(image, p, 11);
    assert(boot[510] == image(512 * p + 510) && boot[511] == image(512 * p + 511));
    assert(boot[11] == image(512 * p + 11) && boot[12] == image(512 * p + 12));
    assert(boot[13] == image(512 * p + 13));
    assert(mounted(before, card).0 == usable(image, bad));
    (h, mounted(before, card).1)
}

// ── Files that are cut short ───────────────────────────────────────────────

/// A file whose clusters hold less than its record says is handed out as far as they go,
/// and not said to be read.
pub proof fn lemma_short_file_on_card(
    image: Image,
    l: Layout,
    dir: Seq<u32>,
    r: int,
    name83: Seq<u8>,
    file: Seq<u32>,
) -> (h: Seq<Reply>)
    requires
        laid_out(image, l),
        root_directory(image, l, dir),
        first_named(image, l, dir, r, name83),
        chained(image, l, file),
        chain_ends(image, l, file),
        file[0] == record_cluster(image, l, dir, r),
        record_size(image, l, dir, r) > chain_size(l, file),
    ensures
        ({
            let script = |h: Seq<Reply>| read_file_run(volume_of(l), name83, h);
            &&& completes(script, card_of(image), h, false)
            &&& delivered(performed(script, h)) == Seq::new(
                chain_size(l, file) as nat,
                |i: int| chain_byte(image, l, file, i),
            )
        }),
{
    let size = chain_size(l, file);
    assert(0 <= 512 * l.cluster_size * file.len()) by (nonlinear_arith)
        requires
            0 < l.cluster_size,
    ;
    lemma_found(image, l, dir, 0, r, name83);
    lemma_directory(image, l, dir);
    lemma_linked(image, l, file);
    lemma_bytes(image, l, file, size);
    lemma_read_back(volume_of(l), card_of(image), dir, name83, file)
}

// ── Listings ───────────────────────────────────────────────────────────────

/// The record is that of a file or directory: not deleted, no part of a long name, no
/// label.
pub open spec fn visible(image: Image, l: Layout, dir: Seq<u32>, r: int) -> bool {
    &&& record(image, l, dir, r, 0) != 0xE5
    &&& record(image, l, dir, r, 11) != 0x0F
    &&& record(image, l, dir, r, 11) & 0x08 == 0
}

/// The records of files and directories from record `r` on, up to the end of the
/// directory: a record that starts with a zero, or the last one.
pub open spec fn visible_records(image: Image, l: Layout, dir: Seq<u32>, r: int) -> Seq<int>
    decreases chain_size(l, dir) - 32 * r + 32,
{
    if 32 * r >= chain_size(l, dir) || record(image, l, dir, r, 0) == 0 {
        Seq::empty()
    } else if visible(image, l, dir, r) {
        seq![r] + visible_records(image, l, dir, r + 1)
    } else {
        visible_records(image, l, dir, r + 1)
    }
}

/// The entry that a record holds.
pub open spec fn record_entry(image: Image, l: Layout, dir: Seq<u32>, r: int) -> DirEntryView {
    DirEntryView {
        name: Seq::new(11, |k: int| record(image, l, dir, r, k)),
        cluster: record_cluster(image, l, dir, r) as u32,
        size: record_size(image, l, dir, r) as u32,
        attr: record(image, l, dir, r, 11),
    }
}

pub open spec fn record_entries(image: Image, l: Layout, dir: Seq<u32>, rs: Seq<int>) -> Seq<
    DirEntryView,
> {
    rs.map_values(|r: int| record_entry(image, l, dir, r))
}

proof fn lemma_sector_entry(image: Image, l: Layout, dir: Seq<u32>, k: int, i: int)
    requires
        laid_out(image, l),
        chained(image, l, dir),
        0 <= k < l.cluster_size * dir.len(),
        0 <= i < 16,
    ensures
        ({
            let s = stored(volume_of(l), card_of(image), dir, k)->Some_0;
            &&& s[32 * i] == record(image, l, dir, 16 * k + i, 0)
            &&& entry_hidden(s, i) == !visible(image, l, dir, 16 * k + i)
            &&& entry_at(s, i) == record_entry(image, l, dir, 16 * k + i)
        }),
{
    lemma_sector(image, l, dir, k);
    let s = stored(volume_of(l), card_of(image), dir, k)->Some_0;
    let r = 16 * k + i;
    assert forall|j: int| 0 <= j < 32 implies #[trigger] s[32 * i + j] == record(
        image,
        l,
        dir,
        r,
        j,
    ) by {
        assert(512 * k + (32 * i + j) == 32 * r + j);
    }
    assert(s[32 * i + 0] == record(image, l, dir, r, 0));
    assert(s[32 * i + 11] == record(image, l, dir, r, 11));
    let e = record_entry(image, l, dir, r);
    assert(entry_at(s, i).name =~= e.name);
    assert(s[32 * i + 20] == record(image, l, dir, r, 20) && s[32 * i + 21] == record(
        image,
        l,
        dir,
        r,
        21,
    ) && s[32 * i + 26] == record(image, l, dir, r, 26) && s[32 * i + 27] == record(
        image,
        l,
        dir,
        r,
        27,
    ));
    assert(s[32 * i + 28] == record(image, l, dir, r, 28) && s[32 * i + 29] == record(
        image,
        l,
        dir,
        r,
        29,
    ) && s[32 * i + 30] == record(image, l, dir, r, 30) && s[32 * i + 31] == record(
        image,
        l,
        dir,
        r,
        31,
    ));
    assert(entry_at(s, i).cluster == e.cluster);
    assert(entry_at(s, i).size == e.size);
}

/// The visible entries of a sector from entry `i` on, and what follows them.
proof fn lemma_sector_listed(image: Image, l: Layout, dir: Seq<u32>, k: int, i: int)
    requires
        laid_out(image, l),
        chained(image, l, dir),
        0 <= k < l.cluster_size * dir.len(),
        0 <= i <= 16,
        chain_size(l, dir) == 512 * (l.cluster_size * dir.len()),
    ensures
        ({
            let s = stored(volume_of(l), card_of(image), dir, k)->Some_0;
            let ends = exists|q: int| i <= q < 16 && #[trigger] s[32 * q] == 0;
            record_entries(image, l, dir, visible_records(image, l, dir, 16 * k + i))
                == entries_from(s, i) + if ends {
                Seq::empty()
            } else {
                record_entries(image, l, dir, visible_records(image, l, dir, 16 * k + 16))
            }
        }),
    decreases 16 - i,
{
    let s = stored(volume_of(l), card_of(image), dir, k)->Some_0;
    let all = visible_records(image, l, dir, 16 * k + i);
    let later = record_entries(image, l, dir, visible_records(image, l, dir, 16 * k + 16));
    if i == 16 {
        assert(entries_from(s, 16) + later =~= later);
    } else {
        lemma_sector_entry(image, l, dir, k, i);
        let here = s[32 * i];
        if here == 0 {
            assert(record_entries(image, l, dir, all) =~= Seq::empty());
            assert(entries_from(s, i) + Seq::empty() =~= Seq::<DirEntryView>::empty());
        } else {
            lemma_sector_listed(image, l, dir, k, i + 1);
            let ends = exists|q: int| i <= q < 16 && #[trigger] s[32 * q] == 0;
            let ends_later = exists|q: int| i + 1 <= q < 16 && #[trigger] s[32 * q] == 0;
            if ends {
                let q = choose|q: int| i <= q < 16 && #[trigger] s[32 * q] == 0;
                assert(i + 1 <= q < 16 && s[32 * q] == 0);
            }
            assert(ends == ends_later);
            let more = visible_records(image, l, dir, 16 * k + i + 1);
            if visible(image, l, dir, 16 * k + i) {
                assert(record_entries(image, l, dir, seq![16 * k + i] + more) =~= seq![
                    record_entry(image, l, dir, 16 * k + i),
                ] + record_entries(image, l, dir, more));
                assert(record_entries(image, l, dir, all) =~= entries_from(s, i) + if ends {
                    Seq::empty()
                } else {
                    later
                });
            }
        }
    }
}

proof fn lemma_listed(image: Image, l: Layout, dir: Seq<u32>, k: int)
    requires
        laid_out(image, l),
        chained(image, l, dir),
        0 <= k <= l.cluster_size * dir.len(),
        chain_size(l, dir) == 512 * (l.cluster_size * dir.len()),
        sectors(volume_of(l), dir) == l.cluster_size * dir.len(),
    ensures
        listed(volume_of(l), card_of(image), dir, k) == record_entries(
            image,
            l,
            dir,
            visible_records(image, l, dir, 16 * k),
        ),
    decreases l.cluster_size * dir.len() - k,
{
    if k < l.cluster_size * dir.len() {
        lemma_sector(image, l, dir, k);
        lemma_sector_listed(image, l, dir, k, 0);
        lemma_listed(image, l, dir, k + 1);
        let s = stored(volume_of(l), card_of(image), dir, k)->Some_0;
        if directory_ends(s) {
            let q = choose|q: int| 0 <= q < 16 && #[trigger] s[32 * q] == 0;
            assert(0 <= q < 16 && s[32 * q] == 0);
        }
        assert(entries_from(s, 0) + Seq::empty() =~= entries_from(s, 0));
    } else {
        assert(record_entries(image, l, dir, visible_records(image, l, dir, 16 * k))
            =~= Seq::empty());
    }
}

/// What is listed of a record: its name as `name_shown` has it and zeros behind it, its
/// size and its first cluster; a directory has bit 4 of its attributes set.
pub open spec fn info_of(image: Image, l: Layout, dir: Seq<u32>, r: int, f: FileInfoView) -> bool {
    let name83 = Seq::new(11, |k: int| record(image, l, dir, r, k));
    &&& f.size == record_size(image, l, dir, r)
    &&& f.cluster == record_cluster(image, l, dir, r)
    &&& f.is_dir == (record(image, l, dir, r, 11) & 0x10 != 0)
    &&& f.name.len() == 12
    &&& exists|n: int, m: int|
        {
            &&& #[trigger] name_lengths(name83, n, m)
            &&& f.name.take(name_shown(name83, n, m).len() as int) == name_shown(name83, n, m)
            &&& forall|i: int| name_shown(name83, n, m).len() <= i < 12 ==> #[trigger] f.name[i] == 0
        }
}

/// The first `n` of the eight bytes of the name, and the first `m` of the three of the
/// extension, are those before a space.
pub open spec fn name_lengths(name83: Seq<u8>, n: int, m: int) -> bool {
    &&& 0 <= n <= 8
    &&& forall|i: int| 0 <= i < n ==> #[trigger] name83[i] != 0x20
    &&& n < 8 ==> name83[n] == 0x20
    &&& 0 <= m <= 3
    &&& forall|i: int| 8 <= i < 8 + m ==> #[trigger] name83[i] != 0x20
    &&& m < 3 ==> name83[8 + m] == 0x20
}

/// Name, dot and extension; without an extension there is no dot.
pub open spec fn name_shown(name83: Seq<u8>, n: int, m: int) -> Seq<u8> {
    if m == 0 {
        name83.take(n)
    } else {
        name83.take(n).push(0x2E) + name83.subrange(8, 8 + m)
    }
}

proof fn lemma_until_space(s: Seq<u8>) -> (n: int)
    ensures
        0 <= n <= s.len(),
        until_space(s) == s.take(n),
        forall|i: int| 0 <= i < n ==> #[trigger] s[i] != 0x20,
        n < s.len() ==> s[n] == 0x20,
    decreases s.len(),
{
    if s.len() == 0 || s[0] == 0x20 {
        assert(s.take(0) =~= Seq::empty());
        0
    } else {
        let t = s.drop_first();
        let n = lemma_until_space(t);
        assert(seq![s[0]] + t.take(n) =~= s.take(n + 1));
        assert forall|i: int| 0 <= i < n + 1 implies #[trigger] s[i] != 0x20 by {
            if i > 0 {
                assert(t[i - 1] != 0x20);
            }
        }
        n + 1
    }
}

/// The readable form of a stored name.
pub proof fn lemma_name_shown(name83: Seq<u8>)
    requires
        name83.len() == 11,
    ensures
        exists|n: int, m: int| #[trigger]
            name_lengths(name83, n, m) && display_name(name83) == name_shown(name83, n, m),
{
    let a = name83.subrange(0, 8);
    let b = name83.subrange(8, 11);
    let n = lemma_until_space(a);
    let m = lemma_until_space(b);
    assert forall|i: int| 0 <= i < n implies #[trigger] name83[i] != 0x20 by {
        assert(a[i] != 0x20);
    }
    assert forall|i: int| 8 <= i < 8 + m implies #[trigger] name83[i] != 0x20 by {
        assert(b[i - 8] != 0x20);
    }
    if n < 8 {
        assert(a[n] == name83[n]);
    }
    if m < 3 {
        assert(b[m] == name83[8 + m]);
    }
    assert(name83[8] == b[0]);
    assert(a.take(n) =~= name83.take(n));
    assert(b.take(m) =~= name83.subrange(8, 8 + m));
    assert(name_lengths(name83, n, m));
    if m == 0 {
        assert(a.take(n) + Seq::empty() =~= name83.take(n));
    } else {
        assert(b[0] != 0x20);
        assert(a.take(n) + (seq![0x2Eu8] + b.take(m)) =~= name_shown(name83, n, m));
    }
}

/// The listing of the root directory has an item for each of its files and directories,
/// in the order of their records, up to `max` of them.
pub proof fn lemma_directory_on_card_is_listed(
    image: Image,
    l: Layout,
    dir: Seq<u32>,
    max: int,
) -> (r: (Seq<Reply>, Seq<FileInfoView>))
    requires
        laid_out(image, l),
        root_directory(image, l, dir),
        0 <= max,
    ensures
        ({
            let (h, files) = r;
            let rs = visible_records(image, l, dir, 0);
            &&& completes(
                |h: Seq<Reply>| list_root_run(volume_of(l), max, h),
                card_of(image),
                h,
                files,
            )
            &&& files.len() == if rs.len() < max {
                rs.len() as int
            } else {
                max
            }
            &&& forall|j: int|
                0 <= j < files.len() ==> info_of(image, l, dir, rs[j], #[trigger] files[j])
        }),
{
    let rs = visible_records(image, l, dir, 0);
    let es = listed(volume_of(l), card_of(image), dir, 0);
    lemma_directory(image, l, dir);
    assert(512 * l.cluster_size * dir.len() == 512 * (l.cluster_size * dir.len()))
        by (nonlinear_arith);
    assert(sectors(volume_of(l), dir) == l.cluster_size * dir.len()) by (nonlinear_arith)
        requires
            sectors(volume_of(l), dir) == dir.len() * l.cluster_size,
    ;
    assert(0 <= l.cluster_size * dir.len()) by (nonlinear_arith)
        requires
            0 < l.cluster_size,
    ;
    lemma_listed(image, l, dir, 0);
    let h = lemma_listing(volume_of(l), card_of(image), dir, max);
    let files = infos_up_to(es, max);
    assert forall|j: int| 0 <= j < files.len() implies info_of(
        image,
        l,
        dir,
        rs[j],
        #[trigger] files[j],
    ) by {
        let e = record_entry(image, l, dir, rs[j]);
        assert(es[j] == e);
        assert(files[j] == file_info(e));
        lemma_info(image, l, dir, rs[j]);
    }
    (h, files)
}

proof fn lemma_info(image: Image, l: Layout, dir: Seq<u32>, r: int)
    ensures
        info_of(image, l, dir, r, file_info(record_entry(image, l, dir, r))),
{
    let e = record_entry(image, l, dir, r);
    let f = file_info(e);
    lemma_name_shown(e.name);
    let (n, m) = choose|n: int, m: int| #[trigger]
        name_lengths(e.name, n, m) && display_name(e.name) == name_shown(e.name, n, m);
    let shown = name_shown(e.name, n, m);
    assert(shown.len() <= 12);
    assert(f.name.take(shown.len() as int) =~= shown);
}

/// The diagnostic listing prints all of them.
pub proof fn lemma_directory_on_card_is_printed(image: Image, l: Layout, dir: Seq<u32>) -> (h: Seq<
    Reply,
>)
    requires
        laid_out(image, l),
        root_directory(image, l, dir),
    ensures
        completes(
            |h: Seq<Reply>| list_files_debug_run(volume_of(l), h),
            card_of(image),
            h,
            debug_text(record_entries(image, l, dir, visible_records(image, l, dir, 0))),
        ),
{
    lemma_directory(image, l, dir);
    assert(512 * l.cluster_size * dir.len() == 512 * (l.cluster_size * dir.len()))
        by (nonlinear_arith);
    assert(sectors(volume_of(l), dir) == l.cluster_size * dir.len()) by (nonlinear_arith)
        requires
            sectors(volume_of(l), dir) == dir.len() * l.cluster_size,
    ;
    assert(0 <= l.cluster_size * dir.len()) by (nonlinear_arith)
        requires
            0 < l.cluster_size,
    ;
    lemma_listed(image, l, dir, 0);
    lemma_listing(volume_of(l), card_of(image), dir, 0)
}

/// A file that the directory does not hold is not loaded: the value is 0, and memory
/// stays as it was.
pub proof fn lemma_file_not_on_card_is_not_loaded(
    image: Image,
    l: Layout,
    dir: Seq<u32>,
    name83: Seq<u8>,
    answers: spec_fn(LoadOpView) -> Reply,
    dest: int,
    mem: Memory,
) -> (h: Seq<Reply>)
    requires
        laid_out(image, l),
        root_directory(image, l, dir),
        none_named(image, l, dir, name83),
        name83.len() == 11,
        loads_from(answers, card_of(image)),
    ensures
        ({
            let script = |h: Seq<Reply>| load_run(volume_of(l), name83, dest, h);
            &&& completes(script, answers, h, 0)
            &&& after(mem, performed(script, h)) == mem
        }),
{
    let fs = volume_of(l);
    let card = card_of(image);
    lemma_directory(image, l, dir);
    assert(0 <= l.cluster_size * dir.len()) by (nonlinear_arith)
        requires
            0 < l.cluster_size,
    ;
    lemma_not_found(image, l, dir, 0, name83);
    let h = lemma_missing_file(fs, card, dir, name83);
    let read = |h: Seq<Reply>| read_file_run(fs, name83, h);
    lemma_placed(read, answers, card, dest, 0, h, false, mem);
    assert((|h: Seq<Reply>| placed(read, dest, 0, h)) =~= (|h: Seq<Reply>|
        load_run(fs, name83, dest, h)));
    assert(with_bytes(mem, dest, Seq::empty()) =~= mem);
    h
}

/// A file whose clusters hold less than its record says is not said to be loaded.
pub proof fn lemma_short_file_on_card_is_not_loaded(
    image: Image,
    l: Layout,
    dir: Seq<u32>,
    r: int,
    name83: Seq<u8>,
    file: Seq<u32>,
    answers: spec_fn(LoadOpView) -> Reply,
    dest: int,
    mem: Memory,
) -> (h: Seq<Reply>)
    requires
        laid_out(image, l),
        root_directory(image, l, dir),
        first_named(image, l, dir, r, name83),
        chained(image, l, file),
        chain_ends(image, l, file),
        file[0] == record_cluster(image, l, dir, r),
        record_size(image, l, dir, r) > chain_size(l, file),
        loads_from(answers, card_of(image)),
    ensures
        completes(|h: Seq<Reply>| load_run(volume_of(l), name83, dest, h), answers, h, 0),
{
    let fs = volume_of(l);
    let h = lemma_short_file_on_card(image, l, dir, r, name83, file);
    let read = |h: Seq<Reply>| read_file_run(fs, name83, h);
    lemma_placed(read, answers, card_of(image), dest, 0, h, false, mem);
    assert((|h: Seq<Reply>| placed(read, dest, 0, h)) =~= (|h: Seq<Reply>|
        load_run(fs, name83, dest, h)));
    h
}

} // verus!
