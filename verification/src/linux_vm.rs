//! The Linux guest: the memory shared with it, the stage-2 page tables it runs
//! under, and the registers it is entered with.
//!
//! Memory layout (Raspberry Pi 4, 4 GB):
//!
//! | Address       | Contents                                   |
//! |---------------|--------------------------------------------|
//! | `0x0008_0000` | the kernel (EL2)                           |
//! | `0x0020_0000` | memory shared with the guest (4 KB)        |
//! | `0x0040_0000` | the Linux kernel image                     |
//! | `0x0200_0000` | the Linux initramfs                        |
//! | `0x3B40_0000` | stage-2 page tables (64 KB)                |
//! | `0x3B50_0000` | the Linux device tree (64 KB)              |
use vstd::prelude::*;

verus! {

/// Where the Linux kernel image is loaded.
pub const LINUX_LOAD_ADDR: usize = 0x0040_0000;
/// Where the Linux initramfs is loaded.
pub const LINUX_INITRD_ADDR: usize = 0x0200_0000;
/// The memory shared with the guest.
pub const SHMEM_ADDR: usize = 0x0020_0000;
/// Where the Linux device tree is loaded.
pub const LINUX_DTB_ADDR: usize = 0x3B50_0000;
/// The pool of stage-2 page tables.
pub const PT_POOL_ADDR: u64 = 0x3B40_0000;
/// The size of that pool, in 64-bit words: 64 KB.
pub const PT_POOL_WORDS: usize = 8192;
/// What the guest writes to say that it is ready.
pub const SHMEM_MAGIC: u32 = 0xAA55AA55;

// ── Shared memory ──────────────────────────────────────────────────────────

/// The memory shared with the guest. The guest writes key strokes to `ring` and
/// advances `write_idx`; this side advances `read_idx`.
#[derive(Clone, Copy, PartialEq, Eq, Debug)]
pub struct SharedMem {
    pub magic: u32,
    pub write_idx: u32,
    pub read_idx: u32,
    pub _pad: u32,
    /// ASCII key strokes.
    pub ring: [u8; 256],
    /// Accumulated mouse movement.
    pub mouse_x: i32,
    pub mouse_y: i32,
    /// Bit 0: left, bit 1: right, bit 2: middle.
    pub mouse_btns: u8,
    /// Bit 0: there is a new event.
    pub mouse_flags: u8,
    pub _pad2: [u8; 2],
}

/// How far the guest is ahead.
pub open spec fn pending_count(m: SharedMem) -> nat {
    ((m.write_idx - m.read_idx) % 0x1_0000_0000) as nat
}

/// The key strokes that wait to be read, oldest first.
pub open spec fn pending(m: SharedMem) -> Seq<u8> {
    Seq::new(pending_count(m), |i: int| m.ring@[(m.read_idx + i) % 256])
}

/// There is a mouse event that was not read yet.
pub open spec fn mouse_event(m: SharedMem) -> bool {
    m.mouse_flags & 1 != 0
}

/// The mouse event that there is to read.
pub open spec fn mouse_read(m: SharedMem) -> Option<(i32, i32, u8)> {
    if mouse_event(m) {
        Some((m.mouse_x, m.mouse_y, m.mouse_btns))
    } else {
        None
    }
}

/// The memory after the mouse event was read.
pub open spec fn mouse_taken(m: SharedMem) -> SharedMem {
    if mouse_event(m) {
        SharedMem { mouse_x: 0, mouse_y: 0, mouse_flags: m.mouse_flags & 0xFE, ..m }
    } else {
        m
    }
}

impl SharedMem {
    /// The guest has said that it is ready.
    pub fn is_ready(&self) -> (r: bool)
        ensures
            r == (self.magic == 0xAA55_AA55),
    {
        self.magic == SHMEM_MAGIC
    }

    /// Takes the oldest key stroke from the ring, or `None` where there is none.
    pub fn read_char(&mut self) -> (r: Option<u8>)
        ensures
            match r {
                None => pending(*old(self)).len() == 0 && *final(self) == *old(self),
                Some(c) => {
                    &&& pending(*old(self)).len() > 0
                    &&& c == pending(*old(self))[0]
                    &&& pending(*final(self)) == pending(*old(self)).drop_first()
                    &&& *final(self) == (SharedMem {
                        read_idx: old(self).read_idx.wrapping_add(1),
                        ..*old(self)
                    })
                },
            },
    {
        if self.read_idx == self.write_idx {
            return None;
        }
        let idx: usize = (self.read_idx as usize) % 256;
        let c: u8 = self.ring[idx];
        let ghost before = *self;
        self.read_idx = self.read_idx.wrapping_add(1);
        proof {
            assert forall|i: int| 0 <= i < pending(*self).len() implies #[trigger] pending(*self)[i]
                == pending(before)[i + 1] by {}
            assert(pending(*self) =~= pending(before).drop_first());
        }
        Some(c)
    }

    /// Takes the mouse movement and the buttons (dx, dy, buttons), if there is a new
    /// event.
    pub fn read_mouse(&mut self) -> (r: Option<(i32, i32, u8)>)
        ensures
            r == mouse_read(*old(self)),
            *final(self) == mouse_taken(*old(self)),
            match r {
                None => !mouse_event(*old(self)) && *final(self) == *old(self),
                Some(e) => {
                    &&& mouse_event(*old(self))
                    &&& e == (old(self).mouse_x, old(self).mouse_y, old(self).mouse_btns)
                    &&& !mouse_event(*final(self))
                    &&& *final(self) == (SharedMem {
                        mouse_x: 0,
                        mouse_y: 0,
                        mouse_flags: old(self).mouse_flags & 0xFE,
                        ..*old(self)
                    })
                },
            },
    {
        let flags: u8 = self.mouse_flags;
        if flags & 0x01 == 0 {
            return None;
        }
        let dx: i32 = self.mouse_x;
        let dy: i32 = self.mouse_y;
        let btns: u8 = self.mouse_btns;
        self.mouse_x = 0;
        self.mouse_y = 0;
        self.mouse_flags = flags & !0x01u8;
        proof {
            lemma_event_bit(flags);
        }
        Some((dx, dy, btns))
    }
}

/// The guest has handed over a key stroke.
pub open spec fn key_pressed(before: SharedMem, after: SharedMem, c: u8) -> bool {
    &&& after.read_idx == before.read_idx
    &&& after.write_idx == before.write_idx.wrapping_add(1)
    &&& after.ring@ == before.ring@.update(before.write_idx as int % 256, c)
}

/// Key strokes are read in the order in which they were pressed, as long as the
/// ring was not full.
pub proof fn lemma_keys_in_order(before: SharedMem, after: SharedMem, c: u8)
    requires
        key_pressed(before, after, c),
        pending(before).len() < 256,
    ensures
        pending(after) == pending(before).push(c),
{
    let n = pending_count(before);
    assert((before.read_idx + n) % 256 == before.write_idx as int % 256);
    assert forall|i: int| 0 <= i < n implies #[trigger] pending(after)[i] == pending(before)[i] by {
        assert((before.read_idx + i) % 256 != before.write_idx as int % 256);
    }
    assert(pending(after) =~= pending(before).push(c));
}

/// The guest has seen the mouse move, and hands that over.
pub open spec fn mouse_moved(
    before: SharedMem,
    after: SharedMem,
    dx: int,
    dy: int,
    buttons: u8,
) -> bool {
    &&& after.mouse_x == before.mouse_x + dx
    &&& after.mouse_y == before.mouse_y + dy
    &&& after.mouse_btns == buttons
    &&& after.mouse_flags % 2 == 1
}

/// Mouse movements add up until they are read, and are read once: two movements after a
/// reading are read as their sum, with the buttons of the second, and what is read next
/// starts from nothing.
pub proof fn lemma_movements_add_up(
    start: SharedMem,
    first: SharedMem,
    second: SharedMem,
    a: (int, int, u8),
    b: (int, int, u8),
)
    requires
        mouse_event(start),
        mouse_moved(mouse_taken(start), first, a.0, a.1, a.2),
        mouse_moved(first, second, b.0, b.1, b.2),
    ensures
        mouse_read(second) matches Some(e) && e.0 == a.0 + b.0 && e.1 == a.1 + b.1 && e.2 == b.2,
        mouse_read(mouse_taken(second)) is None,
{
    lemma_event_bit(second.mouse_flags);
}

proof fn lemma_event_bit(flags: u8)
    by (bit_vector)
    ensures
        flags % 2 == 1 <==> flags & 1 != 0,
        (flags & 0xFE) & 1 == 0,
        flags & !0x01u8 == flags & 0xFE,
{
}

// ── Stage-2 page tables ────────────────────────────────────────────────────
//
// Two levels with a 4 KB granule: a level-1 table of four entries, one for each
// gigabyte, each pointing to a level-2 table of 512 blocks of 2 MB.

pub const L1_ENTRIES: usize = 4;
pub const L2_ENTRIES: usize = 512;
pub const BLOCK_SIZE: u64 = 0x20_0000;

/// The entry is valid.
pub const DESC_VALID: u64 = 0x1;
/// The entry points to a table; without this bit it maps a block.
pub const DESC_TABLE: u64 = 0x2;
/// Device memory (index 1 of MAIR_EL2); without this bit, normal memory.
pub const DESC_MEMATTR_DEVICE: u64 = 0x4;
/// The access permissions of EL1 (S2AP).
pub const DESC_AP_MASK: u64 = 0xC0;
/// EL1 may read.
pub const DESC_AP_RO: u64 = 0x40;
/// EL1 may read and write.
pub const DESC_AP_RW: u64 = 0xC0;
/// Inner shareable.
pub const DESC_SH_INNER: u64 = 0x300;
/// The access flag: without it the first access faults.
pub const DESC_AF: u64 = 0x400;
/// Peripherals lie from here on.
pub const DEVICE_START: u64 = 0xFC00_0000;

/// The level-1 entry for a gigabyte.
pub open spec fn l1_desc(gb: int) -> u64 {
    ((PT_POOL_ADDR + 0x1000 * (gb + 1)) as u64) | DESC_TABLE | DESC_VALID
}

/// The level-2 entry that maps the block at `addr` to itself.
pub open spec fn block_desc(addr: u64) -> u64 {
    addr | DESC_VALID | DESC_AF | DESC_SH_INNER | DESC_AP_RW | (if addr >= DEVICE_START {
        DESC_MEMATTR_DEVICE
    } else {
        0
    })
}

/// Word `i` of the pool: the level-1 table, at word 512 the level-2 tables, zero
/// elsewhere.
pub open spec fn identity_word(i: int) -> u64 {
    if 0 <= i < 4 {
        l1_desc(i)
    } else if 512 <= i < 512 + 4 * 512 {
        block_desc((0x20_0000 * (i - 512)) as u64)
    } else {
        0
    }
}

/// The page tables that map 4 GB one to one.
pub open spec fn identity_tables() -> Seq<u64> {
    Seq::new(8192, |i: int| identity_word(i))
}

/// The system registers that put the page tables into effect.
#[derive(Clone, Copy, PartialEq, Eq, Structural, Debug)]
pub struct Stage2Regs {
    pub mair_el2: u64,
    pub vtcr_el2: u64,
    pub vttbr_el2: u64,
}

/// Index 0: normal write-back memory. Index 1: device memory.
pub const MAIR_EL2: u64 = 0x00FF;
/// T0SZ = 32 (4 GB), SL0 = 1 (start at level 1), IRGN0 = ORGN0 = 1 (write-back),
/// SH0 = 3 (inner shareable), TG0 = 0 (4 KB), PS = 0 (32 bits), bit 31.
pub const VTCR_EL2: u64 = 0x8000_3560;

/// What is written to the system registers.
pub open spec fn stage2_regs() -> Stage2Regs {
    Stage2Regs { mair_el2: 0x00FF, vtcr_el2: 0x8000_3560, vttbr_el2: 0x3B40_0000 }
}

fn get_block_desc(addr: u64) -> (desc: u64)
    ensures
        desc == block_desc(addr),
{
    let memattr: u64 = if addr >= DEVICE_START {
        DESC_MEMATTR_DEVICE
    } else {
        0
    };
    addr | DESC_VALID | DESC_AF | DESC_SH_INNER | DESC_AP_RW | memattr
}

/// Fills the pool with page tables that map 4 GB one to one, and says what to write
/// to the system registers.
pub fn setup_stage2_tables(pool: &mut [u64]) -> (regs: Stage2Regs)
    requires
        old(pool)@.len() == PT_POOL_WORDS,
    ensures
        final(pool)@ == identity_tables(),
        regs == (Stage2Regs {
            mair_el2: 0x00FF,
            vtcr_el2: 0x8000_3560,
            vttbr_el2: 0x3B40_0000,
        }),
        regs == stage2_regs(),
{
    let mut i: usize = 0;
    while i < PT_POOL_WORDS
        invariant
            i <= PT_POOL_WORDS,
            pool@.len() == PT_POOL_WORDS,
            forall|j: int| 0 <= j < i ==> pool@[j] == 0,
        decreases PT_POOL_WORDS - i,
    {
        pool[i] = 0;
        i = i + 1;
    }
    let mut gb: usize = 0;
    while gb < L1_ENTRIES
        invariant
            gb <= L1_ENTRIES,
            pool@.len() == PT_POOL_WORDS,
            forall|j: int|
                0 <= j < 8192 ==> #[trigger] pool@[j] == (if j < gb || 512 <= j < 512 + 512 * gb {
                    identity_word(j)
                } else {
                    0
                }),
        decreases L1_ENTRIES - gb,
    {
        let l2_phys: u64 = PT_POOL_ADDR + 0x1000 * (gb as u64 + 1);
        pool[gb] = l2_phys | DESC_TABLE | DESC_VALID;
        let first: usize = 512 + gb * 512;
        let mut mb2: usize = 0;
        while mb2 < L2_ENTRIES
            invariant
                gb < L1_ENTRIES,
                first == 512 + gb * 512,
                mb2 <= L2_ENTRIES,
                pool@.len() == PT_POOL_WORDS,
                forall|j: int|
                    0 <= j < 8192 ==> #[trigger] pool@[j] == (if j <= gb || 512 <= j < first + mb2 {
                        identity_word(j)
                    } else {
                        0
                    }),
            decreases L2_ENTRIES - mb2,
        {
            let addr: u64 = 0x4000_0000 * gb as u64 + BLOCK_SIZE * mb2 as u64;
            assert(addr == 0x20_0000 * (first + mb2 - 512));
            pool[first + mb2] = get_block_desc(addr);
            mb2 = mb2 + 1;
        }
        gb = gb + 1;
    }
    assert(pool@ =~= identity_tables());
    Stage2Regs { mair_el2: MAIR_EL2, vtcr_el2: VTCR_EL2, vttbr_el2: PT_POOL_ADDR }
}

/// A level-2 entry with EL1's permissions reduced to reading.
pub open spec fn read_only_desc(desc: u64) -> u64 {
    (desc & !DESC_AP_MASK) | DESC_AP_RO
}

/// The block at index `blk` holds some of the `size` bytes at `addr`.
pub open spec fn block_touched(addr: int, size: int, blk: int) -> bool {
    addr < 0x20_0000 * (blk + 1) && 0x20_0000 * blk < addr + size
}

/// The page tables with the blocks that hold a framebuffer read-only.
pub open spec fn protected_tables(pool: Seq<u64>, fb_phys: int, fb_size: int) -> Seq<u64> {
    Seq::new(
        pool.len(),
        |i: int|
            if 512 <= i < 512 + 4 * 512 && block_touched(fb_phys, fb_size, i - 512) {
                read_only_desc(pool[i])
            } else {
                pool[i]
            },
    )
}

/// Makes the blocks that hold the framebuffer read-only for EL1. The guest can still
/// read the pixels; a store of its faults. Does nothing where there is no
/// framebuffer. The result says whether TLB entries have to be flushed.
pub fn protect_framebuffer(pool: &mut [u64], fb_phys: usize, fb_size: usize) -> (flush: bool)
    requires
        old(pool)@.len() == PT_POOL_WORDS,
        fb_phys != 0 && fb_size != 0 ==> fb_phys + fb_size + 0x20_0000 <= usize::MAX,
    ensures
        flush == (fb_phys != 0 && fb_size != 0),
        final(pool)@ == (if flush {
            protected_tables(old(pool)@, fb_phys as int, fb_size as int)
        } else {
            old(pool)@
        }),
{
    if fb_phys == 0 || fb_size == 0 {
        return false;
    }
    let ghost before = pool@;
    let block: usize = 0x20_0000;
    let start_blk: usize = fb_phys / block;
    let end_blk: usize = (fb_phys + fb_size + block - 1) / block;
    let mut blk: usize = start_blk;
    assert(forall|b: int|
        block_touched(fb_phys as int, fb_size as int, b) <==> start_blk <= b < end_blk);
    while blk < end_blk && blk < 2048
        invariant
            before == old(pool)@,
            before.len() == PT_POOL_WORDS,
            pool@.len() == PT_POOL_WORDS,
            start_blk <= blk,
            forall|i: int|
                0 <= i < 8192 ==> #[trigger] pool@[i] == (if 512 + start_blk <= i < 512 + blk {
                    read_only_desc(before[i])
                } else {
                    before[i]
                }),
            blk <= 2048 || blk == start_blk,
            blk <= end_blk,
        decreases end_blk - blk,
    {
        let gb: usize = blk / 512;
        let mb2: usize = blk % 512;
        let at: usize = 512 + gb * 512 + mb2;
        let desc: u64 = pool[at];
        pool[at] = (desc & !DESC_AP_MASK) | DESC_AP_RO;
        blk = blk + 1;
    }
    assert(pool@ =~= protected_tables(before, fb_phys as int, fb_size as int));
    true
}

/// What the page tables make of an address of the guest.
pub struct Mapping {
    /// The physical address.
    pub addr: int,
    /// EL1 may write there.
    pub writable: bool,
    /// It is device memory.
    pub device: bool,
}

/// The bits of VTCR_EL2 that the walk below goes by: addresses of 32 bits, a walk that
/// starts at level 1, and a granule of 4 KB.
pub open spec fn two_levels(vtcr: u64) -> bool {
    &&& vtcr & 0x3F == 32
    &&& (vtcr >> 6) & 3 == 1
    &&& (vtcr >> 14) & 3 == 0
}

/// The attribute in MAIR_EL2 that bits 5 to 2 of an entry select; only the first two
/// are told apart here.
pub open spec fn attribute(mair: u64, bits: u64) -> u64 {
    if bits == 0 {
        mair % 0x100
    } else {
        mair / 0x100 % 0x100
    }
}

/// The hardware's walk through the tables in `pool`, which lie at 0x3B40_0000, for an
/// address below 4 GB. The level-1 table is where VTTBR_EL2 says. A table entry ends in
/// 3 and a block in 1; a block needs its access flag (bit 10) and has its permissions
/// in bits 7 and 6, where 1 is reading and 3 both; its memory is that of the attribute
/// in bits 5 to 2, which is device memory where MAIR_EL2 has a zero.
pub open spec fn translate(regs: Stage2Regs, pool: Seq<u64>, ipa: int) -> Option<Mapping> {
    let l1 = pool[(regs.vttbr_el2 - 0x3B40_0000) / 8 + ipa / 0x4000_0000];
    let l2 = ((l1 & 0x0000_FFFF_FFFF_F000) - 0x3B40_0000) / 8;
    let desc = pool[l2 + ipa / 0x20_0000 % 512];
    if !two_levels(regs.vtcr_el2) || l1 & 3 != 3 || desc & 3 != 1 || desc & 0x400 == 0 || desc
        & 0x40 == 0 {
        None
    } else {
        Some(
            Mapping {
                addr: (desc & 0x0000_FFFF_FFE0_0000) + ipa % 0x20_0000,
                writable: desc & 0xC0 == 0xC0,
                device: attribute(regs.mair_el2, desc & 0x3C) == 0,
            },
        )
    }
}

proof fn lemma_two_levels()
    ensures
        two_levels(stage2_regs().vtcr_el2),
        2u64 | 1 == 3,
{
    assert(0x8000_3560u64 & 0x3F == 32 && (0x8000_3560u64 >> 6) & 3 == 1 && (0x8000_3560u64 >> 14)
        & 3 == 0 && 2u64 | 1 == 3) by (bit_vector);
}

proof fn lemma_block_desc(addr: u64)
    requires
        addr % 0x20_0000 == 0,
        addr < 0x1_0000_0000,
    ensures
        ({
            let d = block_desc(addr);
            &&& d & 3 == DESC_VALID
            &&& d & DESC_AF != 0
            &&& d & DESC_AP_RO != 0
            &&& d & 0x0000_FFFF_FFE0_0000 == addr
            &&& d & DESC_AP_MASK == DESC_AP_RW
            &&& d & 0x3C == (if addr >= DEVICE_START {
                DESC_MEMATTR_DEVICE
            } else {
                0
            })
        }),
{
    assert({
        let d = block_desc(addr);
        &&& d & 3 == DESC_VALID
        &&& d & DESC_AF != 0
        &&& d & DESC_AP_RO != 0
        &&& d & 0x0000_FFFF_FFE0_0000 == addr
        &&& d & DESC_AP_MASK == DESC_AP_RW
        &&& d & 0x3C == (if addr >= DEVICE_START {
            DESC_MEMATTR_DEVICE
        } else {
            0
        })
    }) by (bit_vector)
        requires
            addr % 0x20_0000 == 0,
            addr < 0x1_0000_0000,
    ;
}

proof fn lemma_read_only_desc(d: u64)
    by (bit_vector)
    ensures
        read_only_desc(d) & 3 == d & 3,
        read_only_desc(d) & DESC_AF == d & DESC_AF,
        read_only_desc(d) & DESC_AP_RO == DESC_AP_RO,
        read_only_desc(d) & 0x0000_FFFF_FFE0_0000 == d & 0x0000_FFFF_FFE0_0000,
        read_only_desc(d) & DESC_AP_MASK == DESC_AP_RO,
        read_only_desc(d) & 0x3C == d & 0x3C,
        DESC_AP_RO != 0u64,
        DESC_AP_RO != DESC_AP_RW,
{
}

proof fn lemma_l1_desc(gb: int)
    requires
        0 <= gb < 4,
    ensures
        l1_desc(gb) & 3 == DESC_TABLE | DESC_VALID,
        (l1_desc(gb) & 0x0000_FFFF_FFFF_F000) == PT_POOL_ADDR + 0x1000 * (gb + 1),
{
    let a = (PT_POOL_ADDR + 0x1000 * (gb + 1)) as u64;
    assert((a | DESC_TABLE | DESC_VALID) & 3 == DESC_TABLE | DESC_VALID && (a | DESC_TABLE
        | DESC_VALID) & 0x0000_FFFF_FFFF_F000 == a) by (bit_vector)
        requires
            a % 0x1000 == 0,
            a < 0x1_0000_0000,
    ;
}

/// The guest sees physical memory one to one: every address below 4 GB is mapped to
/// itself and writable; the peripherals, and nothing else, are device memory.
pub proof fn lemma_identity_map(ipa: int)
    requires
        0 <= ipa < 0x1_0000_0000,
    ensures
        translate(stage2_regs(), identity_tables(), ipa) == Some(
            Mapping { addr: ipa, writable: true, device: ipa >= 0xFC00_0000 },
        ),
{
    let gb = ipa / 0x4000_0000;
    let blk = ipa / 0x20_0000;
    lemma_l1_desc(gb);
    assert(512 * (gb + 1) + blk % 512 == 512 + blk);
    lemma_block_desc((0x20_0000 * blk) as u64);
    lemma_two_levels();
}

/// Protecting a framebuffer makes exactly the blocks that hold some of it read-only,
/// and changes nothing else of what the guest sees.
pub proof fn lemma_protected_map(fb_phys: int, fb_size: int, ipa: int)
    requires
        0 <= ipa < 0x1_0000_0000,
    ensures
        translate(
            stage2_regs(),
            protected_tables(identity_tables(), fb_phys, fb_size),
            ipa,
        ) == Some(
            Mapping {
                addr: ipa,
                writable: !block_touched(fb_phys, fb_size, ipa / 0x20_0000),
                device: ipa >= 0xFC00_0000,
            },
        ),
{
    let gb = ipa / 0x4000_0000;
    let blk = ipa / 0x20_0000;
    lemma_l1_desc(gb);
    assert(512 * (gb + 1) + blk % 512 == 512 + blk);
    lemma_block_desc((0x20_0000 * blk) as u64);
    lemma_read_only_desc(block_desc((0x20_0000 * blk) as u64));
    lemma_two_levels();
}

/// The byte at `a` is one of the framebuffer's.
pub open spec fn in_framebuffer(fb_phys: int, fb_size: int, a: int) -> bool {
    fb_phys <= a < fb_phys + fb_size
}

/// The guest cannot write to the 2 MB around a byte of a protected framebuffer, and can
/// write everywhere else.
pub proof fn lemma_protected_bytes(fb_phys: int, fb_size: int, ipa: int)
    requires
        0 <= ipa < 0x1_0000_0000,
        0 < fb_size,
    ensures
        ({
            let tables = protected_tables(identity_tables(), fb_phys, fb_size);
            let same_block = exists|a: int| #[trigger]
                in_framebuffer(fb_phys, fb_size, a) && a / 0x20_0000 == ipa / 0x20_0000;
            translate(stage2_regs(), tables, ipa) == Some(
                Mapping { addr: ipa, writable: !same_block, device: ipa >= 0xFC00_0000 },
            )
        }),
{
    let blk = ipa / 0x20_0000;
    lemma_protected_map(fb_phys, fb_size, ipa);
    if block_touched(fb_phys, fb_size, blk) {
        let first = 0x20_0000 * blk;
        let a = if fb_phys > first {
            fb_phys
        } else {
            first
        };
        assert(in_framebuffer(fb_phys, fb_size, a) && a / 0x20_0000 == blk);
    }
}

/// No byte of a protected framebuffer can be written by the guest.
pub proof fn lemma_framebuffer_is_read_only(fb_phys: int, fb_size: int, ipa: int)
    requires
        0 <= ipa < 0x1_0000_0000,
        fb_phys <= ipa < fb_phys + fb_size,
    ensures
        translate(
            stage2_regs(),
            protected_tables(identity_tables(), fb_phys, fb_size),
            ipa,
        ) == Some(
            Mapping { addr: ipa, writable: false, device: ipa >= 0xFC00_0000 },
        ),
{
    lemma_protected_map(fb_phys, fb_size, ipa);
}

/// The fields of VTCR_EL2.
pub proof fn lemma_vtcr_fields()
    ensures
        stage2_regs().vtcr_el2 & 0x3F == 32u64,
        (stage2_regs().vtcr_el2 >> 6) & 3 == 1u64,
        (stage2_regs().vtcr_el2 >> 8) & 3 == 1u64,
        (stage2_regs().vtcr_el2 >> 10) & 3 == 1u64,
        (stage2_regs().vtcr_el2 >> 12) & 3 == 3u64,
        (stage2_regs().vtcr_el2 >> 14) & 3 == 0u64,
        (stage2_regs().vtcr_el2 >> 16) & 7 == 0u64,
        (stage2_regs().vtcr_el2 >> 31) & 1 == 1u64,
{
    let v = 0x8000_3560u64;
    assert(v & 0x3F == 32u64 && (v >> 6) & 3 == 1u64 && (v >> 8) & 3 == 1u64 && (v >> 10) & 3
        == 1u64 && (v >> 12) & 3 == 3u64 && (v >> 14) & 3 == 0u64 && (v >> 16) & 7 == 0u64 && (v
        >> 31) & 1 == 1u64) by (bit_vector)
        requires
            v == 0x8000_3560,
    ;
}

// ── Entering the guest ─────────────────────────────────────────────────────

/// HCR_EL2: EL1 runs AArch64.
pub const HCR_RW: u64 = 0x8000_0000;
/// HCR_EL2: stage-2 translation is on.
pub const HCR_VM: u64 = 0x1;
/// HCR_EL2: set/way invalidations are overridden.
pub const HCR_SWIO: u64 = 0x2;
/// SPSR_EL2: return to EL1h with all interrupts masked.
pub const SPSR_EL1H: u64 = 0x3C5;

/// The registers with which the guest is entered.
#[derive(Clone, Copy, PartialEq, Eq, Structural, Debug)]
pub struct EntryRegs {
    pub hcr_el2: u64,
    pub spsr_el2: u64,
    /// Where the guest starts.
    pub elr_el2: u64,
    /// The physical address of the device tree.
    pub x0: u64,
    pub x1: u64,
    pub x2: u64,
    pub x3: u64,
}

/// The registers with which Linux is entered.
pub open spec fn entry_regs(dtb_addr: u64) -> EntryRegs {
    EntryRegs {
        hcr_el2: 0x8000_0003,
        spsr_el2: 0x3C5,
        elr_el2: 0x0040_0000,
        x0: dtb_addr,
        x1: 0,
        x2: 0,
        x3: 0,
    }
}

/// Linux is entered in AArch64 at EL1 on its own stack (EL1h) with all exceptions
/// masked, under stage-2 translation, with the fourth to the sixth bit of HCR_EL2 clear,
/// so that no interrupt comes to EL2. It starts where its kernel was loaded, as its boot
/// protocol has it: with the device tree's address in x0 and zero in the other three.
pub proof fn lemma_entry(dtb_addr: u64)
    ensures
        ({
            let r = entry_regs(dtb_addr);
            &&& (r.hcr_el2 >> 31) & 1 == 1
            &&& r.hcr_el2 & 1 == 1
            &&& (r.hcr_el2 >> 1) & 1 == 1
            &&& r.hcr_el2 & 0x38 == 0
            &&& r.hcr_el2 & 0x7FFF_FFFC == 0 && r.hcr_el2 >> 32 == 0
            &&& r.spsr_el2 & 0xF == 5
            &&& (r.spsr_el2 >> 4) & 1 == 0
            &&& (r.spsr_el2 >> 6) & 0xF == 0xF
            &&& r.spsr_el2 >> 10 == 0 && (r.spsr_el2 >> 5) & 1 == 0
            &&& r.elr_el2 == LINUX_LOAD_ADDR && r.elr_el2 % 0x20_0000 == 0
            &&& r.x0 == dtb_addr && r.x1 == 0 && r.x2 == 0 && r.x3 == 0
        }),
{
    let h = 0x8000_0003u64;
    let s = 0x3C5u64;
    assert((h >> 31) & 1 == 1 && h & 1 == 1 && (h >> 1) & 1 == 1 && h & 0x38 == 0 && h & 0x7FFF_FFFC
        == 0 && h >> 32 == 0 && s & 0xF == 5 && (s >> 4) & 1 == 0 && (s >> 6) & 0xF == 0xF && s
        >> 10 == 0 && (s >> 5) & 1 == 0) by (bit_vector)
        requires
            h == 0x8000_0003,
            s == 0x3C5,
    ;
}

/// The registers with which Linux is entered at EL1, given where its device tree
/// lies. Interrupts stay with EL1: none of the bits that route them to EL2 is set.
pub fn launch_linux(dtb_addr: usize) -> (regs: EntryRegs)
    ensures
        regs == (EntryRegs {
            hcr_el2: 0x8000_0003,
            spsr_el2: 0x3C5,
            elr_el2: 0x0040_0000,
            x0: dtb_addr as u64,
            x1: 0,
            x2: 0,
            x3: 0,
        }),
        regs == entry_regs(dtb_addr as u64),
{
    assert(HCR_RW | HCR_VM | HCR_SWIO == 0x8000_0003u64) by (bit_vector);
    EntryRegs {
        hcr_el2: HCR_RW | HCR_VM | HCR_SWIO,
        spsr_el2: SPSR_EL1H,
        elr_el2: LINUX_LOAD_ADDR as u64,
        x0: dtb_addr as u64,
        x1: 0,
        x2: 0,
        x3: 0,
    }
}

} // verus!
