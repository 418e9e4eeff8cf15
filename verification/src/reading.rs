//! What a reader finds in the texts that are printed: the numbers in them, and what
//! they are numbers of.
use vstd::prelude::*;
use crate::board::Board;
use crate::text::{utf8, decimal, hex, decimal_value, decimal_digit_value, hex_value, hex_digit_value, lemma_decimal_reads_back, lemma_hex_reads_back, lemma_pow16};
use crate::fat32::{DirEntryView, FileInfoView, Fat32, le16, le32, mbr_text, vbr_text, read_failed_text, debug_line, debug_lines, debug_text, hex_bytes, fields_text};
use crate::commands::{cat_head, cat_tail, info_text, elinfo_text, usbstatus_text, ls_line, ls_lines, ls_text, size_field};
use crate::kernel::{banner_text, level_text, kernel_text, initrd_text, dtb_text, patched_text};
use crate::ipc::alive_text;
use crate::linux_vm::SharedMem;
use vstd::arithmetic::div_mod::lemma_small_mod;

verus! {

/// `d` is the number `v` in decimal: digits, with no zero in front of others.
pub open spec fn spells(d: Seq<u8>, v: int) -> bool {
    &&& d.len() > 0
    &&& forall|i: int| 0 <= i < d.len() ==> 0x30 <= #[trigger] d[i] <= 0x39
    &&& d.len() > 1 ==> d[0] != 0x30
    &&& decimal_value(d) == v
}

/// `d` is the number `v` in hexadecimal with `n` digits.
pub open spec fn spells_hex(d: Seq<u8>, n: nat, v: int) -> bool {
    &&& d.len() == n
    &&& forall|i: int| 0 <= i < d.len() ==> hex_digit_value(#[trigger] d[i]) >= 0
    &&& hex_value(d) == v
}

proof fn lemma_spells(v: nat)
    ensures
        spells(decimal(v), v as int),
{
    lemma_decimal_reads_back(v);
    let d = decimal(v);
    assert forall|i: int| 0 <= i < d.len() implies 0x30 <= #[trigger] d[i] <= 0x39 by {
        assert(decimal_digit_value(d[i]) >= 0);
    }
}

proof fn lemma_spells_hex(v: nat, n: nat, upper: bool)
    requires
        n == 2 && v < 0x100 || n == 4 && v < 0x1_0000 || n == 8 && v < 0x1_0000_0000 || n == 16
            && v < 0x1_0000_0000_0000_0000,
    ensures
        spells_hex(hex(v, n, upper), n, v as int),
{
    lemma_hex_reads_back(v, n, upper);
    lemma_pow16();
    lemma_small_mod(v, vstd::arithmetic::power::pow(16, n) as nat);
}

// ── The shell's answers ────────────────────────────────────────────────────

proof fn lemma_level(current_el: u64)
    ensures
        (current_el >> 2) & 3 == current_el / 4 % 4,
{
    assert((current_el >> 2) & 3 == current_el / 4 % 4) by (bit_vector);
}

/// `info` names the exception level, which is in bits 3 and 2 of CurrentEL, and where
/// the shared memory lies.
pub proof fn lemma_info_reads(current_el: u64)
    ensures
        exists|d: Seq<u8>, e: Seq<u8>|
            {
                &&& #[trigger] spells(d, ((current_el >> 2) & 3) as int)
                &&& #[trigger] spells_hex(e, 8, 0x0020_0000)
                &&& info_text(current_el) == utf8(
                    "ai-os v0.4.0 — EL2 Hypervisor + Linux Driver VM\n",
                ) + utf8("Board: Raspberry Pi 4 (BCM2711, Cortex-A72)\n") + utf8(
                    "Architecture: AArch64\n",
                ) + utf8("Current EL: EL") + d + utf8("\n") + utf8(
                    "Linux driver VM: EL1 (core 1)\n",
                ) + utf8("USB HID IPC: shared memory @ 0x") + e + utf8("\n")
            },
{
    lemma_level(current_el);
    lemma_spells((current_el / 4 % 4) as nat);
    lemma_spells_hex(0x0020_0000, 8, false);
}

/// `elinfo` names the exception level, the whole of HCR_EL2, its bits 0 and 31, and the
/// whole of VTTBR_EL2.
pub proof fn lemma_elinfo_reads(current_el: u64, hcr: u64, vttbr: u64)
    ensures
        exists|d: Seq<u8>, e: Seq<u8>, vm: Seq<u8>, rw: Seq<u8>, t: Seq<u8>|
            {
                &&& #[trigger] spells(d, ((current_el >> 2) & 3) as int)
                &&& #[trigger] spells_hex(e, 16, hcr as int)
                &&& #[trigger] spells(vm, (hcr & 1) as int)
                &&& #[trigger] spells(rw, ((hcr >> 31) & 1) as int)
                &&& #[trigger] spells_hex(t, 16, vttbr as int)
                &&& elinfo_text(current_el, hcr, vttbr) == utf8("CurrentEL:  EL") + d + utf8("\n")
                    + utf8("HCR_EL2:    0x") + e + utf8("\n") + utf8("  VM=") + vm + utf8(
                    " (stage-2 enabled)\n",
                ) + utf8("  RW=") + rw + utf8(" (EL1 is AArch64)\n") + utf8("VTTBR_EL2:  0x") + t
                    + utf8("\n")
            },
{
    lemma_level(current_el);
    assert(hcr & 1 == hcr % 2 && (hcr >> 31) & 1 == hcr / 0x8000_0000 % 2) by (bit_vector);
    let d = decimal((current_el / 4 % 4) as nat);
    let e = hex(hcr as nat, 16, false);
    let vm = decimal((hcr % 2) as nat);
    let rw = decimal((hcr / 0x8000_0000 % 2) as nat);
    let t = hex(vttbr as nat, 16, false);
    lemma_spells((current_el / 4 % 4) as nat);
    lemma_spells((hcr % 2) as nat);
    lemma_spells((hcr / 0x8000_0000 % 2) as nat);
    lemma_spells_hex(hcr as nat, 16, false);
    lemma_spells_hex(vttbr as nat, 16, false);
    assert(spells(d, ((current_el >> 2) & 3) as int) && spells_hex(e, 16, hcr as int) && spells(
        vm,
        (hcr & 1) as int,
    ) && spells(rw, ((hcr >> 31) & 1) as int) && spells_hex(t, 16, vttbr as int));
}

/// `usbstatus` tells a guest that has left its mark from one that has not, and names how
/// far each side of the ring is, or what stands where the mark should be.
pub proof fn lemma_usbstatus_reads(shm: SharedMem)
    ensures
        shm.magic == 0xAA55_AA55 ==> exists|w: Seq<u8>, r: Seq<u8>|
            {
                &&& #[trigger] spells(w, shm.write_idx as int)
                &&& #[trigger] spells(r, shm.read_idx as int)
                &&& usbstatus_text(shm) == utf8("Linux driver VM: READY\n") + utf8(
                    "USB HID daemon:  RUNNING\n",
                ) + utf8("Keyboard:        ACTIVE\n") + utf8("IPC ring buffer: write=") + w + utf8(
                    " read=",
                ) + r + utf8("\n")
            },
        shm.magic != 0xAA55_AA55 ==> exists|m: Seq<u8>|
            {
                &&& #[trigger] spells_hex(m, 8, shm.magic as int)
                &&& usbstatus_text(shm) == utf8("Linux driver VM: NOT READY (magic=0x") + m + utf8(
                    ")\n",
                ) + utf8("USB HID daemon:  waiting...\n")
            },
{
    lemma_spells(shm.write_idx as nat);
    lemma_spells(shm.read_idx as nat);
    lemma_spells_hex(shm.magic as nat, 8, false);
}

/// `size` spaces and a number take ten columns together, unless the number alone takes
/// more.
pub open spec fn right_aligned(field: Seq<u8>, v: int) -> bool {
    exists|d: Seq<u8>, n: nat|
        {
            &&& #[trigger] spells(d, v)
            &&& field == #[trigger] blanks(n) + d
            &&& n + d.len() == 10 || n == 0 && d.len() > 10
        }
}

pub open spec fn blanks(n: nat) -> Seq<u8> {
    Seq::new(n, |i: int| 0x20u8)
}

/// The line of `ls` for a file or directory: its name in twelve columns, filled with
/// spaces behind, and its size in ten; a directory has no size.
pub proof fn lemma_ls_line_reads(f: FileInfoView, name: Seq<char>)
    requires
        name.len() <= 12,
        f.name == vstd::utf8::encode_utf8(name) + Seq::new(
            (12 - vstd::utf8::encode_utf8(name).len()) as nat,
            |i: int| 0u8,
        ),
        vstd::utf8::encode_utf8(name).len() <= 12,
        forall|i: int|
            0 <= i < vstd::utf8::encode_utf8(name).len() ==> #[trigger] vstd::utf8::encode_utf8(
                name,
            )[i] != 0,
    ensures
        ({
            let shown = vstd::utf8::encode_utf8(name) + blanks((12 - name.len()) as nat);
            if f.is_dir {
                ls_line(f) == utf8("  ") + shown + utf8(" ") + (blanks(10) + utf8("  DIR\n"))
            } else {
                exists|size: Seq<u8>|
                    {
                        &&& #[trigger] right_aligned(size, f.size as int)
                        &&& ls_line(f) == utf8("  ") + shown + utf8(" ") + (size + utf8(
                            "  FILE\n",
                        ))
                    }
            }
        }),
{
    let e = vstd::utf8::encode_utf8(name);
    assert(f.name.take(e.len() as int) =~= e);
    lemma_until_zero(e, f.name);
    vstd::utf8::encode_utf8_decode_utf8(name);
    vstd::utf8::encode_utf8_valid_utf8(name);
    assert(crate::text::spaces(12 - name.len()) =~= blanks((12 - name.len()) as nat));
    assert(crate::text::spaces(10) =~= blanks(10));
    lemma_spells(f.size as nat);
    let d = decimal(f.size as nat);
    let n: nat = if d.len() < 10 {
        (10 - d.len()) as nat
    } else {
        0
    };
    assert(crate::text::spaces(10 - d.len()) =~= blanks(n));
    assert(spells(d, f.size as int) && size_field(f.size as nat) == blanks(n) + d);
    assert(right_aligned(size_field(f.size as nat), f.size as int));
}

proof fn lemma_until_zero(e: Seq<u8>, s: Seq<u8>)
    requires
        e.len() <= s.len(),
        s.take(e.len() as int) == e,
        e.len() < s.len() ==> s[e.len() as int] == 0,
        forall|i: int| 0 <= i < e.len() ==> #[trigger] e[i] != 0,
    ensures
        crate::commands::until_zero(s) == e,
    decreases e.len(),
{
    if e.len() > 0 {
        let t = s.drop_first();
        let f = e.drop_first();
        assert(s[0] == s.take(e.len() as int)[0]);
        assert(t.take(f.len() as int) =~= f) by {
            assert forall|i: int| 0 <= i < f.len() implies t[i] == #[trigger] f[i] by {
                assert(s.take(e.len() as int)[i + 1] == e[i + 1]);
            }
        }
        assert forall|i: int| 0 <= i < f.len() implies #[trigger] f[i] != 0 by {
            assert(e[i + 1] != 0);
        }
        lemma_until_zero(f, t);
        assert(seq![s[0]] + f =~= e);
    } else {
        assert(e =~= Seq::empty());
    }
}

/// `ls` has a line for each file, in order, and then says how many there are.
pub proof fn lemma_ls_reads(files: Seq<FileInfoView>, more: FileInfoView)
    ensures
        exists|n: Seq<u8>|
            {
                &&& #[trigger] spells(n, files.len() as int)
                &&& ls_text(files) == utf8("Root directory:\n") + utf8(
                    "  NAME               SIZE  TYPE\n",
                ) + utf8("  ------------------------------\n") + ls_lines(files) + utf8("  ") + n
                    + utf8(" item(s)\n")
            },
        ls_lines(Seq::empty()).len() == 0,
        ls_lines(files.push(more)) == ls_lines(files) + ls_line(more),
{
    lemma_spells(files.len());
    assert(files.push(more).drop_last() =~= files);
}

// ── What is printed while the card is mounted ──────────────────────────────

/// What is printed of a master boot record: its signature, and the type and the start of
/// its first partition.
pub proof fn lemma_mbr_reads(mbr: Seq<u8>)
    requires
        mbr.len() == 512,
    ensures
        exists|s: Seq<u8>, t: Seq<u8>, a: Seq<u8>|
            {
                &&& #[trigger] spells_hex(s, 4, mbr[510] + 256 * mbr[511])
                &&& #[trigger] spells_hex(t, 2, mbr[450] as int)
                &&& #[trigger] spells(
                    a,
                    mbr[454] + 256 * mbr[455] + 65536 * mbr[456] + 16777216 * mbr[457],
                )
                &&& ({
                    let sig = utf8("[fat32] MBR sig: 0x") + s + utf8("\n");
                    let part = sig + utf8("[fat32] Part type: 0x") + t + utf8("  LBA: ") + a
                        + utf8("\n");
                    mbr_text(mbr) == if mbr[510] != 0x55 || mbr[511] != 0xAA {
                        sig + utf8("[fat32] FAIL: bad MBR signature (expected 0xAA55)\n")
                    } else if mbr[450] == 0 {
                        part + utf8("[fat32] FAIL: partition type 0x00 (empty)\n")
                    } else if mbr[450] == 0x82 || mbr[450] == 0x83 || mbr[450] == 0x8E {
                        part + (utf8("[fat32] FAIL: partition type 0x") + t + utf8(
                            " is Linux, not FAT\n",
                        ))
                    } else {
                        part + Seq::empty()
                    }
                })
            },
{
    let s = hex(le16(mbr, 510) as nat, 4, true);
    let t = hex(mbr[450] as nat, 2, true);
    let a = decimal(le32(mbr, 454) as nat);
    lemma_spells_hex(le16(mbr, 510) as nat, 4, true);
    lemma_spells_hex(mbr[450] as nat, 2, true);
    lemma_spells(le32(mbr, 454) as nat);
    assert(spells_hex(s, 4, mbr[510] + 256 * mbr[511]) && spells_hex(t, 2, mbr[450] as int)
        && spells(a, mbr[454] + 256 * mbr[455] + 65536 * mbr[456] + 16777216 * mbr[457]));
}

/// What is printed of a boot record: its signature, then its fields by their names.
pub proof fn lemma_boot_record_reads(vbr: Seq<u8>)
    requires
        vbr.len() == 512,
    ensures
        exists|
            b: Seq<u8>,
            c: Seq<u8>,
            r: Seq<u8>,
            n: Seq<u8>,
            f: Seq<u8>,
            k: Seq<u8>,
        |
            {
                &&& #[trigger] spells(b, vbr[11] + 256 * vbr[12])
                &&& #[trigger] spells(c, vbr[13] as int)
                &&& #[trigger] spells(r, vbr[14] + 256 * vbr[15])
                &&& #[trigger] spells(n, vbr[16] as int)
                &&& #[trigger] spells(
                    f,
                    vbr[36] + 256 * vbr[37] + 65536 * vbr[38] + 16777216 * vbr[39],
                )
                &&& #[trigger] spells(
                    k,
                    vbr[44] + 256 * vbr[45] + 65536 * vbr[46] + 16777216 * vbr[47],
                )
                &&& fields_text(vbr) == utf8("[fat32] bps=") + b + utf8(" spc=") + c + utf8(
                    " res=",
                ) + r + utf8(" nfat=") + n + utf8(" fatsz=") + f + utf8(" rootclus=") + k + utf8(
                    "\n",
                )
            },
{
    let b = decimal(le16(vbr, 11) as nat);
    let c = decimal(vbr[13] as nat);
    let r = decimal(le16(vbr, 14) as nat);
    let n = decimal(vbr[16] as nat);
    let f = decimal(le32(vbr, 36) as nat);
    let k = decimal(le32(vbr, 44) as nat);
    lemma_spells(le16(vbr, 11) as nat);
    lemma_spells(vbr[13] as nat);
    lemma_spells(le16(vbr, 14) as nat);
    lemma_spells(vbr[16] as nat);
    lemma_spells(le32(vbr, 36) as nat);
    lemma_spells(le32(vbr, 44) as nat);
    assert(spells(b, vbr[11] + 256 * vbr[12]) && spells(c, vbr[13] as int) && spells(
        r,
        vbr[14] + 256 * vbr[15],
    ) && spells(n, vbr[16] as int));
    assert(spells(f, vbr[36] + 256 * vbr[37] + 65536 * vbr[38] + 16777216 * vbr[39]));
    assert(spells(k, vbr[44] + 256 * vbr[45] + 65536 * vbr[46] + 16777216 * vbr[47]));
}

/// A sector that could not be read is named.
pub proof fn lemma_read_failure_reads(lba: u32)
    ensures
        exists|d: Seq<u8>|
            {
                &&& #[trigger] spells(d, lba as int)
                &&& read_failed_text(lba) == utf8("[fat32] FAIL: sd_read_block(") + d + utf8(
                    ") failed\n",
                )
            },
{
    lemma_spells(lba as nat);
}

// ── What is printed during the boot ────────────────────────────────────────

/// Sizes of what was loaded: in units of 1024 bytes for the kernel and the initramfs, in
/// bytes for the device tree.
pub proof fn lemma_sizes_read(size: u64)
    ensures
        exists|d: Seq<u8>|
            {
                &&& #[trigger] spells(d, size as int / 1024)
                &&& kernel_text(size) == utf8("[kernel] Linux VM:    kernel OK (") + d + utf8(
                    " KB)\n",
                )
                &&& initrd_text(size) == utf8("[kernel] Linux VM:    initrd OK (") + d + utf8(
                    " KB)\n",
                )
            },
        exists|d: Seq<u8>|
            {
                &&& #[trigger] spells(d, size as int)
                &&& dtb_text(size) == utf8("[kernel] Linux VM:    DTB OK (") + d + utf8(
                    " bytes)\n",
                )
            },
        exists|a: Seq<u8>, d: Seq<u8>|
            {
                &&& #[trigger] spells_hex(a, 8, 0x0200_0000)
                &&& #[trigger] spells(d, size as int)
                &&& patched_text(size) == utf8(
                    "[kernel] Linux VM:    DTB patched (initrd @ 0x",
                ) + a + utf8("+") + d + utf8(")\n") + utf8("[kernel] Stage-2 MMU: ")
            },
{
    lemma_spells((size / 1024) as nat);
    lemma_spells(size as nat);
    lemma_spells_hex(0x0200_0000, 8, true);
}

/// Where the UART of a board lies.
pub open spec fn uart_address(board: Board) -> int {
    match board {
        Board::Rpi3 => 0x3F20_1000,
        Board::Rpi4 => 0xFE20_1000,
    }
}

/// Where the UART lies, and at which exception level the kernel runs.
pub proof fn lemma_start_reads(board: Board, display: bool, current_el: u64)
    ensures
        exists|a: Seq<u8>|
            {
                &&& #[trigger] spells_hex(a, 8, uart_address(board))
                &&& banner_text(board, display) == utf8(
                    "========================================\n",
                ) + utf8("  ai-os v0.4.0\n") + utf8("  EL2 Hypervisor + Linux Driver VM\n") + utf8(
                    "  Board: Raspberry Pi 4 (BCM2711)\n",
                ) + utf8("========================================\n") + utf8("\n") + utf8(
                    "[kernel] UART:        OK @ 0x",
                ) + a + utf8("\n") + (if display {
                    utf8("[kernel] Framebuffer: OK (1280x720 @ 32bpp)\n")
                } else {
                    utf8("[kernel] Framebuffer: FAILED -- UART-only mode\n")
                })
            },
        exists|d: Seq<u8>|
            {
                &&& #[trigger] spells(d, ((current_el >> 2) & 3) as int)
                &&& level_text(current_el) == utf8("[kernel] Exception Level: EL") + d + utf8("\n")
                    + utf8("[kernel] Cores 1-3:   parked\n") + utf8("[kernel] SD card:     ")
            },
{
    lemma_level(current_el);
    lemma_spells((current_el / 4 % 4) as nat);
    let at = uart_address(board) as nat;
    lemma_spells_hex(at, 8, true);
    assert(crate::uart::data_reg(board) as nat == at);
    assert(spells_hex(hex(at, 8, true), 8, uart_address(board)));
}

/// Core 1's mark is printed, and judged.
pub proof fn lemma_mark_reads(marker: u32)
    ensures
        exists|m: Seq<u8>|
            {
                &&& #[trigger] spells_hex(m, 8, marker as int)
                &&& alive_text(marker) == if marker == 0xC001_0001 {
                    utf8("\n[kernel] Core 1: woke up and reached trampoline (marker=0x") + m + utf8(
                        ")\n[kernel] Core 1: Linux ERET fired — waiting for hid_daemon...\n",
                    )
                } else {
                    utf8("\n[kernel] Core 1: DID NOT WAKE (marker=0x") + m + utf8(
                        ") — spin table not working\n",
                    )
                }
            },
{
    lemma_spells_hex(marker as nat, 8, true);
}

/// What is printed of the boot record of a partition as a whole. It is refused for a
/// wrong signature, for sectors of another size than 512 bytes, and for clusters
/// without sectors; otherwise the first sectors of its table and of its data are named.
pub proof fn lemma_verdict_reads(fs: Fat32, vbr: Seq<u8>)
    requires
        vbr.len() == 512,
    ensures
        exists|s: Seq<u8>, b: Seq<u8>, t: Seq<u8>, d: Seq<u8>|
            {
                &&& #[trigger] spells_hex(s, 4, vbr[510] + 256 * vbr[511])
                &&& #[trigger] spells(b, vbr[11] + 256 * vbr[12])
                &&& #[trigger] spells(t, table_start(fs, vbr))
                &&& #[trigger] spells(d, data_start(fs, vbr))
                &&& ({
                    let sig = utf8("[fat32] VBR sig: 0x") + s + utf8("\n");
                    vbr_text(fs, vbr) == if vbr[510] != 0x55 || vbr[511] != 0xAA {
                        sig + utf8("[fat32] FAIL: bad VBR signature\n")
                    } else if vbr[11] != 0 || vbr[12] != 2 {
                        sig + fields_text(vbr) + (utf8("[fat32] FAIL: bytes_per_sector=") + b
                            + utf8(" (need 512)\n"))
                    } else if vbr[13] == 0 {
                        sig + fields_text(vbr) + utf8("[fat32] FAIL: sectors_per_cluster=0\n")
                    } else {
                        sig + fields_text(vbr) + (utf8("[fat32] fat_lba=") + t + utf8(
                            " data_lba=",
                        ) + d + utf8("\n"))
                    }
                })
            },
{
    let s = hex(le16(vbr, 510) as nat, 4, true);
    let b = decimal(le16(vbr, 11) as nat);
    let t = decimal(table_start(fs, vbr) as nat);
    let d = decimal(data_start(fs, vbr) as nat);
    lemma_spells_hex(le16(vbr, 510) as nat, 4, true);
    lemma_spells(le16(vbr, 11) as nat);
    lemma_spells(table_start(fs, vbr) as nat);
    lemma_spells(data_start(fs, vbr) as nat);
    vstd::arithmetic::div_mod::lemma_add_mod_noop_right(
        (vbr[36] + 256 * vbr[37] + 65536 * vbr[38] + 16777216 * vbr[39]) * vbr[16],
        fs.partition_lba + (vbr[14] + 256 * vbr[15]),
        0x1_0000_0000,
    );
    assert(vbr[16] * le32(vbr, 36) == (vbr[36] + 256 * vbr[37] + 65536 * vbr[38] + 16777216
        * vbr[39]) * vbr[16]) by (nonlinear_arith)
        requires
            le32(vbr, 36) == vbr[36] + 256 * vbr[37] + 65536 * vbr[38] + 16777216 * vbr[39],
    ;
    assert(spells_hex(s, 4, vbr[510] + 256 * vbr[511]) && spells(b, vbr[11] + 256 * vbr[12])
        && spells(t, table_start(fs, vbr)) && spells(d, data_start(fs, vbr)));
}

/// The first sector of the table: behind the reserved sectors of the partition.
pub open spec fn table_start(fs: Fat32, vbr: Seq<u8>) -> int {
    (fs.partition_lba + (vbr[14] + 256 * vbr[15])) % 0x1_0000_0000
}

/// The first sector of the data: behind all of the tables.
pub open spec fn data_start(fs: Fat32, vbr: Seq<u8>) -> int {
    ((vbr[36] + 256 * vbr[37] + 65536 * vbr[38] + 16777216 * vbr[39]) * vbr[16] + (
    fs.partition_lba + (vbr[14] + 256 * vbr[15]))) % 0x1_0000_0000
}

// ── The diagnostic listing ─────────────────────────────────────────────────

/// `text` has the bytes as pairs of hexadecimal digits, with a space between two pairs.
pub open spec fn lists_bytes(text: Seq<u8>, bytes: Seq<u8>) -> bool {
    &&& bytes.len() == 0 ==> text.len() == 0
    &&& bytes.len() > 0 ==> text.len() == 3 * bytes.len() - 1
    &&& forall|i: int|
        0 <= i < bytes.len() ==> spells_hex(
            text.subrange(3 * i, 3 * i + 2),
            2,
            #[trigger] bytes[i] as int,
        )
    &&& forall|i: int| 0 <= 3 * i + 2 < text.len() ==> #[trigger] text[3 * i + 2] == 0x20
}

proof fn lemma_lists_bytes(bytes: Seq<u8>)
    ensures
        lists_bytes(hex_bytes(bytes), bytes),
    decreases bytes.len(),
{
    if bytes.len() > 0 {
        let some = bytes.drop_last();
        let before = hex_bytes(some);
        let last = hex(bytes.last() as nat, 2, true);
        let text = hex_bytes(bytes);
        lemma_lists_bytes(some);
        lemma_spells_hex(bytes.last() as nat, 2, true);
        reveal_strlit(" ");
        assert(vstd::utf8::is_ascii_chars(" "@));
        vstd::utf8::is_ascii_chars_encode_utf8(" "@);
        assert(utf8(" ") =~= seq![0x20u8]);
        assert forall|i: int| 0 <= i < bytes.len() implies spells_hex(
            text.subrange(3 * i, 3 * i + 2),
            2,
            #[trigger] bytes[i] as int,
        ) by {
            if i < some.len() {
                assert(some[i] == bytes[i]);
                assert(text.subrange(3 * i, 3 * i + 2) =~= before.subrange(3 * i, 3 * i + 2));
            } else {
                assert(text.subrange(3 * i, 3 * i + 2) =~= last);
            }
        }
        assert forall|i: int| 0 <= 3 * i + 2 < text.len() implies #[trigger] text[3 * i + 2]
            == 0x20 by {
            if 3 * i + 2 < before.len() {
                assert(before[3 * i + 2] == 0x20);
            }
        }
    }
}

/// The diagnostic line of an entry has the bytes of its name, whether it is a directory
/// (bit 4 of its attributes), and its size.
pub proof fn lemma_debug_line_reads(e: DirEntryView)
    ensures
        exists|n: Seq<u8>, d: Seq<u8>|
            {
                &&& #[trigger] lists_bytes(n, e.name)
                &&& #[trigger] spells(d, e.size as int)
                &&& debug_line(e) == utf8("[fat32]   [") + n + utf8("] ") + utf8(
                    if e.attr & 0x10 != 0 {
                        "<DIR>"
                    } else {
                        "     "
                    },
                ) + utf8(" ") + d + utf8(" bytes\n")
            },
{
    lemma_lists_bytes(e.name);
    lemma_spells(e.size as nat);
}

/// The diagnostic listing has a line for each entry, in order, and says how many there
/// are.
pub proof fn lemma_debug_text_reads(es: Seq<DirEntryView>, more: DirEntryView)
    ensures
        exists|n: Seq<u8>|
            {
                &&& #[trigger] spells(n, es.len() as int)
                &&& debug_text(es) == utf8("[fat32] Root directory listing:\n") + debug_lines(es)
                    + (if es.len() == 0 {
                    utf8("[fat32]   (no entries found)\n")
                } else {
                    Seq::empty()
                }) + utf8("[fat32] ") + n + utf8(" entries total\n")
            },
        debug_lines(Seq::empty()).len() == 0,
        debug_lines(es.push(more)) == debug_lines(es) + debug_line(more),
{
    lemma_spells(es.len());
    assert(es.push(more).drop_last() =~= es);
}

/// What stands around a file that is shown, and what stands there instead of one that is
/// not found.
pub proof fn lemma_cat_reads(args: Seq<char>)
    ensures
        cat_head(args) == utf8("--- ") + vstd::utf8::encode_utf8(args) + utf8(" ---\n"),
        cat_tail(true, args) == utf8("\n--- end ---\n"),
        cat_tail(false, args) == utf8("File not found: ") + vstd::utf8::encode_utf8(args) + utf8(
            "\n",
        ),
{
}

} // verus!
