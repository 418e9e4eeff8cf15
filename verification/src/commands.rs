//! The shell's commands.
use vstd::prelude::*;
use vstd::string::StrSliceExecFns;
use crate::fat32::{FileInfo, FileInfoView, info_views, until_space, display_name, zero_filled};
use crate::linux_vm::{SharedMem, SHMEM_ADDR, SHMEM_MAGIC};
use crate::kernel::exception_level;
use crate::shell::{trim, trimmed, decode, decoded};
use crate::text::{utf8, decimal, hex, spaces, push_str, push_decimal, push_hex, push_spaces, push_bytes, same_bytes};

verus! {

// ── Fixed texts ────────────────────────────────────────────────────────────

pub open spec fn help_text() -> Seq<u8> {
    utf8("Available commands:\n")
        + utf8("  help       — this help\n")
        + utf8("  info       — system information\n")
        + utf8("  elinfo     — exception level details\n")
        + utf8("  memmap     — physical memory map\n")
        + utf8("  usbstatus  — USB HID / Linux VM status\n")
        + utf8("  ls         — list SD card root directory\n")
        + utf8("  cat <FILE> — print file (8.3 name, e.g. README.TXT)\n")
        + utf8("  echo <txt> — print text\n")
        + utf8("  clear      — clear screen\n")
        + utf8("  halt       — halt CPU\n")
}

pub open spec fn memmap_text() -> Seq<u8> {
    utf8("Physical Memory Map:\n")
        + utf8("  0x0008_0000  ai-os kernel (EL2, ~300KB)\n")
        + utf8("  0x0010_0000  Linux launch trampoline (256B)\n")
        + utf8("  0x0020_0000  Shared memory IPC (4KB)\n")
        + utf8("  0x0040_0000  Linux kernel image (vmlinuz, 23MB)\n")
        + utf8("  0x0200_0000  Linux initramfs (4MB)\n")
        + utf8("  0x3B40_0000  Stage-2 page tables (64KB)\n")
        + utf8("  0x3B50_0000  Linux DTB (64KB)\n")
        + utf8("  0xFC00_0000  BCM2711 peripherals (device memory)\n")
}

fn get_help_text() -> (out: Vec<u8>)
    ensures
        out@ == help_text(),
{
    let mut out: Vec<u8> = Vec::new();
    push_str(&mut out, "Available commands:\n");
    push_str(&mut out, "  help       — this help\n");
    push_str(&mut out, "  info       — system information\n");
    push_str(&mut out, "  elinfo     — exception level details\n");
    push_str(&mut out, "  memmap     — physical memory map\n");
    push_str(&mut out, "  usbstatus  — USB HID / Linux VM status\n");
    push_str(&mut out, "  ls         — list SD card root directory\n");
    push_str(&mut out, "  cat <FILE> — print file (8.3 name, e.g. README.TXT)\n");
    push_str(&mut out, "  echo <txt> — print text\n");
    push_str(&mut out, "  clear      — clear screen\n");
    push_str(&mut out, "  halt       — halt CPU\n");
    assert(out@ =~= help_text());
    out
}

fn get_memmap_text() -> (out: Vec<u8>)
    ensures
        out@ == memmap_text(),
{
    let mut out: Vec<u8> = Vec::new();
    push_str(&mut out, "Physical Memory Map:\n");
    push_str(&mut out, "  0x0008_0000  ai-os kernel (EL2, ~300KB)\n");
    push_str(&mut out, "  0x0010_0000  Linux launch trampoline (256B)\n");
    push_str(&mut out, "  0x0020_0000  Shared memory IPC (4KB)\n");
    push_str(&mut out, "  0x0040_0000  Linux kernel image (vmlinuz, 23MB)\n");
    push_str(&mut out, "  0x0200_0000  Linux initramfs (4MB)\n");
    push_str(&mut out, "  0x3B40_0000  Stage-2 page tables (64KB)\n");
    push_str(&mut out, "  0x3B50_0000  Linux DTB (64KB)\n");
    push_str(&mut out, "  0xFC00_0000  BCM2711 peripherals (device memory)\n");
    assert(out@ =~= memmap_text());
    out
}

// ── Texts on the state of the system ───────────────────────────────────────

/// The answer to `info`, given the register CurrentEL.
pub open spec fn info_text(current_el: u64) -> Seq<u8> {
    utf8("ai-os v0.4.0 — EL2 Hypervisor + Linux Driver VM\n") + utf8(
        "Board: Raspberry Pi 4 (BCM2711, Cortex-A72)\n",
    ) + utf8("Architecture: AArch64\n") + utf8("Current EL: EL") + decimal(
        exception_level(current_el),
    ) + utf8("\n") + utf8("Linux driver VM: EL1 (core 1)\n") + utf8(
        "USB HID IPC: shared memory @ 0x",
    ) + hex(SHMEM_ADDR as nat, 8, false) + utf8("\n")
}

/// Answers `info`.
pub fn get_info_text(current_el: u64) -> (out: Vec<u8>)
    ensures
        out@ == info_text(current_el),
{
    let mut out: Vec<u8> = Vec::new();
    push_str(&mut out, "ai-os v0.4.0 — EL2 Hypervisor + Linux Driver VM\n");
    push_str(&mut out, "Board: Raspberry Pi 4 (BCM2711, Cortex-A72)\n");
    push_str(&mut out, "Architecture: AArch64\n");
    push_str(&mut out, "Current EL: EL");
    push_decimal(&mut out, current_el / 4 % 4);
    push_str(&mut out, "\n");
    push_str(&mut out, "Linux driver VM: EL1 (core 1)\n");
    push_str(&mut out, "USB HID IPC: shared memory @ 0x");
    push_hex(&mut out, SHMEM_ADDR as u64, 8, false);
    push_str(&mut out, "\n");
    assert(out@ =~= info_text(current_el));
    out
}

/// The answer to `elinfo`, given the registers CurrentEL, HCR_EL2 and VTTBR_EL2.
pub open spec fn elinfo_text(current_el: u64, hcr: u64, vttbr: u64) -> Seq<u8> {
    utf8("CurrentEL:  EL") + decimal(exception_level(current_el)) + utf8("\n") + utf8(
        "HCR_EL2:    0x",
    ) + hex(hcr as nat, 16, false) + utf8("\n") + utf8("  VM=") + decimal((hcr % 2) as nat) + utf8(
        " (stage-2 enabled)\n",
    ) + utf8("  RW=") + decimal((hcr / 0x8000_0000 % 2) as nat) + utf8(" (EL1 is AArch64)\n")
        + utf8("VTTBR_EL2:  0x") + hex(vttbr as nat, 16, false) + utf8("\n")
}

/// Answers `elinfo`.
pub fn get_elinfo_text(current_el: u64, hcr: u64, vttbr: u64) -> (out: Vec<u8>)
    ensures
        out@ == elinfo_text(current_el, hcr, vttbr),
{
    let mut out: Vec<u8> = Vec::new();
    push_str(&mut out, "CurrentEL:  EL");
    push_decimal(&mut out, current_el / 4 % 4);
    push_str(&mut out, "\n");
    push_str(&mut out, "HCR_EL2:    0x");
    push_hex(&mut out, hcr, 16, false);
    push_str(&mut out, "\n");
    push_str(&mut out, "  VM=");
    push_decimal(&mut out, hcr % 2);
    push_str(&mut out, " (stage-2 enabled)\n");
    push_str(&mut out, "  RW=");
    push_decimal(&mut out, hcr / 0x8000_0000 % 2);
    push_str(&mut out, " (EL1 is AArch64)\n");
    push_str(&mut out, "VTTBR_EL2:  0x");
    push_hex(&mut out, vttbr, 16, false);
    push_str(&mut out, "\n");
    assert(out@ =~= elinfo_text(current_el, hcr, vttbr));
    out
}

/// The answer to `usbstatus`.
pub open spec fn usbstatus_text(shm: SharedMem) -> Seq<u8> {
    if shm.magic == SHMEM_MAGIC {
        utf8("Linux driver VM: READY\n") + utf8("USB HID daemon:  RUNNING\n") + utf8(
            "Keyboard:        ACTIVE\n",
        ) + utf8("IPC ring buffer: write=") + decimal(shm.write_idx as nat) + utf8(" read=")
            + decimal(shm.read_idx as nat) + utf8("\n")
    } else {
        utf8("Linux driver VM: NOT READY (magic=0x") + hex(shm.magic as nat, 8, false) + utf8(
            ")\n",
        ) + utf8("USB HID daemon:  waiting...\n")
    }
}

/// Answers `usbstatus`.
pub fn get_usbstatus_text(shm: &SharedMem) -> (out: Vec<u8>)
    ensures
        out@ == usbstatus_text(*shm),
{
    let mut out: Vec<u8> = Vec::new();
    if shm.is_ready() {
        push_str(&mut out, "Linux driver VM: READY\n");
        push_str(&mut out, "USB HID daemon:  RUNNING\n");
        push_str(&mut out, "Keyboard:        ACTIVE\n");
        push_str(&mut out, "IPC ring buffer: write=");
        push_decimal(&mut out, shm.write_idx as u64);
        push_str(&mut out, " read=");
        push_decimal(&mut out, shm.read_idx as u64);
        push_str(&mut out, "\n");
    } else {
        push_str(&mut out, "Linux driver VM: NOT READY (magic=0x");
        push_hex(&mut out, shm.magic as u64, 8, false);
        push_str(&mut out, ")\n");
        push_str(&mut out, "USB HID daemon:  waiting...\n");
    }
    assert(out@ =~= usbstatus_text(*shm));
    out
}

/// What is printed after the display was cleared.
fn get_clear_text() -> (out: Vec<u8>)
    ensures
        out@ == utf8("ai-os v0.4.0\n"),
{
    let mut out: Vec<u8> = Vec::new();
    push_str(&mut out, "ai-os v0.4.0\n");
    assert(out@ =~= utf8("ai-os v0.4.0\n"));
    out
}

/// What is printed before the CPU halts.
fn get_halt_text() -> (out: Vec<u8>)
    ensures
        out@ == utf8("Halting CPU. Goodbye.\n"),
{
    let mut out: Vec<u8> = Vec::new();
    push_str(&mut out, "Halting CPU. Goodbye.\n");
    assert(out@ =~= utf8("Halting CPU. Goodbye.\n"));
    out
}

// ── Listing files ──────────────────────────────────────────────────────────

/// The bytes before the first zero byte.
pub open spec fn until_zero(s: Seq<u8>) -> Seq<u8>
    decreases s.len(),
{
    if s.len() == 0 || s[0] == 0 {
        Seq::empty()
    } else {
        seq![s[0]] + until_zero(s.drop_first())
    }
}

/// A name as it is shown: what is not valid UTF-8 is shown as a question mark. It is
/// padded with spaces to twelve characters.
pub open spec fn name_field(name: Seq<u8>) -> Seq<u8> {
    match decoded(until_zero(name)) {
        Some(s) => until_zero(name) + spaces(12 - s.len()),
        None => utf8("?") + spaces(11),
    }
}

/// A number, padded with spaces in front to ten characters.
pub open spec fn size_field(n: nat) -> Seq<u8> {
    spaces(10 - decimal(n).len()) + decimal(n)
}

/// The line for a file.
pub open spec fn ls_line(f: FileInfoView) -> Seq<u8> {
    utf8("  ") + name_field(f.name) + utf8(" ") + (if f.is_dir {
        spaces(10) + utf8("  DIR\n")
    } else {
        size_field(f.size as nat) + utf8("  FILE\n")
    })
}

pub open spec fn ls_lines(files: Seq<FileInfoView>) -> Seq<u8>
    decreases files.len(),
{
    if files.len() == 0 {
        Seq::empty()
    } else {
        ls_lines(files.drop_last()) + ls_line(files.last())
    }
}

/// The answer to `ls`.
pub open spec fn ls_text(files: Seq<FileInfoView>) -> Seq<u8> {
    utf8("Root directory:\n") + utf8("  NAME               SIZE  TYPE\n") + utf8(
        "  ------------------------------\n",
    ) + ls_lines(files) + utf8("  ") + decimal(files.len()) + utf8(" item(s)\n")
}

/// The number of bytes before the first zero byte.
fn zero_at(s: &[u8]) -> (n: usize)
    ensures
        n <= s@.len(),
        s@.take(n as int) == until_zero(s@),
{
    let len: usize = s.len();
    let mut i: usize = 0;
    assert(s@.skip(0) =~= s@);
    assert(s@.take(0) + until_zero(s@) =~= until_zero(s@));
    while i < len && s[i] != 0
        invariant
            i <= len,
            len == s@.len(),
            s@.take(i as int) + until_zero(s@.skip(i as int)) == until_zero(s@),
        decreases len - i,
    {
        proof {
            let t = s@.skip(i as int);
            assert(t.drop_first() =~= s@.skip(i + 1));
            assert(s@.take(i + 1) + until_zero(s@.skip(i + 1)) =~= s@.take(i as int) + until_zero(
                t,
            ));
        }
        i = i + 1;
    }
    assert(s@.take(i as int) + until_zero(s@.skip(i as int)) =~= s@.take(i as int));
    i
}

fn push_name_field(out: &mut Vec<u8>, name: &[u8])
    ensures
        final(out)@ == old(out)@ + name_field(name@),
{
    let ghost before = out@;
    let n: usize = zero_at(name);
    let raw: &[u8] = vstd::slice::slice_subrange(name, 0, n);
    assert(raw@ =~= name@.take(n as int));
    match decode(raw) {
        Some(s) => {
            let shown: usize = s.unicode_len();
            push_bytes(out, raw);
            if shown < 12 {
                push_spaces(out, 12 - shown);
            } else {
                assert(spaces(12 - shown) =~= Seq::empty());
            }
        },
        None => {
            push_str(out, "?");
            push_spaces(out, 11);
        },
    }
    assert(out@ =~= before + name_field(name@));
}

fn push_size_field(out: &mut Vec<u8>, n: u32)
    ensures
        final(out)@ == old(out)@ + size_field(n as nat),
{
    let ghost before = out@;
    let mut digits: Vec<u8> = Vec::new();
    push_decimal(&mut digits, n as u64);
    assert(digits@ =~= decimal(n as nat));
    if digits.len() < 10 {
        push_spaces(out, 10 - digits.len());
    } else {
        assert(spaces(10 - digits.len()) =~= Seq::empty());
    }
    push_bytes(out, digits.as_slice());
    assert(out@ =~= before + size_field(n as nat));
}

fn push_ls_line(out: &mut Vec<u8>, f: &FileInfo)
    ensures
        final(out)@ == old(out)@ + ls_line(f@),
{
    let ghost before = out@;
    push_str(out, "  ");
    push_name_field(out, f.name.as_slice());
    push_str(out, " ");
    if f.is_dir {
        push_spaces(out, 10);
        push_str(out, "  DIR\n");
    } else {
        push_size_field(out, f.size);
        push_str(out, "  FILE\n");
    }
    assert(out@ =~= before + ls_line(f@));
}

/// Answers `ls`, given the files of the root directory.
pub fn get_ls_text(files: &Vec<FileInfo>) -> (out: Vec<u8>)
    ensures
        out@ == ls_text(info_views(files@)),
{
    let mut out: Vec<u8> = Vec::new();
    push_str(&mut out, "Root directory:\n");
    push_str(&mut out, "  NAME               SIZE  TYPE\n");
    push_str(&mut out, "  ------------------------------\n");
    let ghost head = out@;
    let ghost views = info_views(files@);
    let n: usize = files.len();
    assert(views.take(0) =~= Seq::empty());
    assert(out@ =~= head + ls_lines(views.take(0)));
    for i in 0..n
        invariant
            n == files@.len(),
            views == info_views(files@),
            out@ == head + ls_lines(views.take(i as int)),
    {
        let ghost before = out@;
        push_ls_line(&mut out, &files[i]);
        proof {
            let t = views.take(i + 1);
            assert(t.drop_last() =~= views.take(i as int));
            assert(t.last() == files@[i as int]@);
            assert(out@ =~= head + ls_lines(t));
        }
    }
    assert(views.take(n as int) =~= views);
    push_str(&mut out, "  ");
    push_decimal(&mut out, n as u64);
    push_str(&mut out, " item(s)\n");
    assert(out@ =~= ls_text(views));
    out
}

// ── Showing a file ─────────────────────────────────────────────────────────

/// The upper case of an ASCII letter; other bytes stay.
pub open spec fn upper(c: u8) -> u8 {
    if 0x61 <= c <= 0x7A {
        (c - 0x20) as u8
    } else {
        c
    }
}

/// Copies bytes to `dst` in upper case, as many as fit. Returns how many.
pub fn to_upper(src: &[u8], dst: &mut [u8]) -> (n: usize)
    ensures
        n == if src@.len() < old(dst)@.len() {
            src@.len()
        } else {
            old(dst)@.len()
        },
        final(dst)@ == src@.take(n as int).map_values(|c: u8| upper(c)) + old(dst)@.skip(n as int),
{
    let ghost before = dst@;
    let len: usize = if src.len() < dst.len() {
        src.len()
    } else {
        dst.len()
    };
    let mut i: usize = 0;
    while i < len
        invariant
            i <= len,
            len <= src@.len(),
            len <= before.len(),
            before == old(dst)@,
            dst@.len() == before.len(),
            forall|j: int| 0 <= j < i ==> dst@[j] == upper(src@[j]),
            forall|j: int| i <= j < before.len() ==> dst@[j] == before[j],
        decreases len - i,
    {
        let c: u8 = src[i];
        dst[i] = if 0x61 <= c && c <= 0x7A {
            c - 0x20
        } else {
            c
        };
        i = i + 1;
    }
    assert(dst@ =~= src@.take(len as int).map_values(|c: u8| upper(c)) + before.skip(len as int));
    len
}

/// The first `n` bytes of `s`, with spaces for what is missing.
pub open spec fn padded(s: Seq<u8>, n: nat) -> Seq<u8> {
    Seq::new(
        n,
        |i: int|
            if i < s.len() {
                s[i]
            } else {
                0x20
            },
    )
}

/// The number of bytes before the first dot, or the length where there is none.
pub open spec fn dot_at(s: Seq<u8>) -> nat
    decreases s.len(),
{
    if s.len() == 0 || s[0] == 0x2E {
        0
    } else {
        1 + dot_at(s.drop_first())
    }
}

/// A typed file name as it is stored on the card: in upper case, the name before the
/// dot in eight bytes and the extension behind it in three. Only the first sixteen
/// bytes are looked at.
pub open spec fn stored_form(typed: Seq<u8>) -> Seq<u8> {
    let s = typed.take(
        if typed.len() < 16 {
            typed.len() as int
        } else {
            16
        },
    ).map_values(|c: u8| upper(c));
    let d = dot_at(s) as int;
    padded(s.take(d), 8) + padded(
        if d < s.len() {
            s.skip(d + 1)
        } else {
            Seq::empty()
        },
        3,
    )
}

/// Where the first dot is, or the length.
fn find_dot(s: &[u8], len: usize) -> (d: usize)
    requires
        len <= s@.len(),
    ensures
        d == dot_at(s@.take(len as int)),
        d <= len,
{
    let ghost t = s@.take(len as int);
    let mut i: usize = 0;
    assert(t.skip(0) =~= t);
    while i < len && s[i] != 0x2E
        invariant
            i <= len,
            len <= s@.len(),
            t == s@.take(len as int),
            i + dot_at(t.skip(i as int)) == dot_at(t),
        decreases len - i,
    {
        assert(t.skip(i as int).drop_first() =~= t.skip(i + 1));
        i = i + 1;
    }
    i
}

fn get_stored_form(typed: &[u8]) -> (name83: [u8; 11])
    ensures
        name83@ == stored_form(typed@),
{
    let mut name83: [u8; 11] = [0x20; 11];
    let mut buf: [u8; 16] = [0; 16];
    let len: usize = to_upper(typed, &mut buf);
    let ghost s = typed@.take(len as int).map_values(|c: u8| upper(c));
    assert(buf@.take(len as int) =~= s);
    let d: usize = find_dot(buf.as_slice(), len);
    let name_len: usize = if d < 8 {
        d
    } else {
        8
    };
    let mut i: usize = 0;
    while i < name_len
        invariant
            i <= name_len,
            name_len <= d <= len <= 16,
            name_len <= 8,
            s == buf@.take(len as int),
            forall|j: int| 0 <= j < i ==> name83@[j] == s[j],
            forall|j: int| i <= j < 11 ==> name83@[j] == 0x20,
        decreases name_len - i,
    {
        name83[i] = buf[i];
        i = i + 1;
    }
    if d < len {
        let rest: usize = len - d - 1;
        let ext_len: usize = if rest < 3 {
            rest
        } else {
            3
        };
        let mut k: usize = 0;
        while k < ext_len
            invariant
                k <= ext_len,
                ext_len <= 3,
                d + 1 + ext_len <= len <= 16,
                s == buf@.take(len as int),
                name_len <= 8,
                name_len <= d,
                forall|j: int| 0 <= j < name_len ==> name83@[j] == s[j],
                forall|j: int| name_len <= j < 8 ==> name83@[j] == 0x20,
                forall|j: int| 0 <= j < k ==> #[trigger] name83@[8 + j] == s[d + 1 + j],
                forall|j: int| 8 + k <= j < 11 ==> name83@[j] == 0x20,
            decreases ext_len - k,
        {
            name83[8 + k] = buf[d + 1 + k];
            k = k + 1;
        }
    }
    assert(name83@ =~= stored_form(typed@)) by {
        assert forall|j: int| 8 <= j < 11 implies name83@[j] == stored_form(typed@)[j] by {
            let k = j - 8;
            assert(name83@[8 + k] == name83@[j]);
        }
    }
    name83
}

/// A part of a stored name as a card has it: no dot, no zero byte and no lower case, and
/// nothing but spaces after the first space.
pub open spec fn plain(s: Seq<u8>) -> bool {
    &&& padded(until_space(s), s.len()) == s
    &&& forall|i: int|
        0 <= i < s.len() ==> #[trigger] s[i] != 0x2E && s[i] != 0 && upper(s[i]) == s[i]
}

proof fn lemma_until_space_elements(s: Seq<u8>)
    ensures
        until_space(s).len() <= s.len(),
        forall|i: int| 0 <= i < until_space(s).len() ==> #[trigger] until_space(s)[i] == s[i],
    decreases s.len(),
{
    if s.len() > 0 && s[0] != 0x20 {
        let t = s.drop_first();
        lemma_until_space_elements(t);
        assert forall|i: int| 0 <= i < until_space(s).len() implies #[trigger] until_space(s)[i]
            == s[i] by {
            if i > 0 {
                assert(until_space(t)[i - 1] == t[i - 1]);
            }
        }
    }
}

proof fn lemma_dot_behind(b: Seq<u8>, t: Seq<u8>)
    requires
        forall|i: int| 0 <= i < b.len() ==> #[trigger] b[i] != 0x2E,
    ensures
        dot_at(b + t) == b.len() + dot_at(t),
    decreases b.len(),
{
    if b.len() == 0 {
        assert(b + t =~= t);
    } else {
        assert((b + t).drop_first() =~= b.drop_first() + t);
        lemma_dot_behind(b.drop_first(), t);
    }
}

proof fn lemma_until_zero_all(s: Seq<u8>, n: nat)
    requires
        s.len() <= n,
        forall|i: int| 0 <= i < s.len() ==> #[trigger] s[i] != 0,
    ensures
        until_zero(zero_filled(s, n)) == s,
    decreases s.len(),
{
    if s.len() == 0 {
        assert(until_zero(zero_filled(s, n)) =~= s);
    } else {
        let t = s.drop_first();
        lemma_until_zero_all(t, (n - 1) as nat);
        assert(zero_filled(s, n).drop_first() =~= zero_filled(t, (n - 1) as nat));
        assert(until_zero(zero_filled(s, n)) =~= s);
    }
}

/// The name that `ls` shows for a file is a name under which `cat` finds it.
pub proof fn lemma_shown_name_is_found(name83: Seq<u8>)
    requires
        name83.len() == 11,
        plain(name83.subrange(0, 8)),
        plain(name83.subrange(8, 11)),
    ensures
        until_zero(zero_filled(display_name(name83), 12)) == display_name(name83),
        stored_form(display_name(name83)) == name83,
{
    let base = name83.subrange(0, 8);
    let ext = name83.subrange(8, 11);
    let b = until_space(base);
    let e = until_space(ext);
    lemma_until_space_elements(base);
    lemma_until_space_elements(ext);
    let shown = display_name(name83);
    let none = Seq::<u8>::empty();
    assert(ext[0] == name83[8]);
    assert(name83[8] == 0x20 ==> e =~= none);
    assert forall|i: int| 0 <= i < shown.len() implies #[trigger] shown[i] != 0 && upper(shown[i])
        == shown[i] by {
        if i < b.len() {
            assert(b[i] == base[i]);
        } else if i > b.len() {
            assert(e[i - b.len() - 1] == ext[i - b.len() - 1]);
        }
    }
    lemma_until_zero_all(shown, 12);
    assert forall|i: int| 0 <= i < b.len() implies #[trigger] b[i] != 0x2E by {
        assert(b[i] == base[i]);
    }
    let s = shown.take(shown.len() as int).map_values(|c: u8| upper(c));
    assert(s =~= shown);
    if name83[8] != 0x20 {
        let tail = seq![0x2Eu8] + e;
        lemma_dot_behind(b, tail);
        assert(dot_at(tail) == 0);
        assert(s.take(b.len() as int) =~= b);
        assert(s.skip(b.len() + 1int) =~= e);
    } else {
        lemma_dot_behind(b, none);
        assert(b + none =~= b);
        assert(shown =~= b);
        assert(s.take(b.len() as int) =~= b);
    }
    assert(stored_form(shown) =~= name83);
}

// ── cat ────────────────────────────────────────────────────────────────────

/// The most bytes of a file that are shown.
pub const CAT_MAX: usize = 2048;

/// Without carriage returns.
pub open spec fn without_cr(s: Seq<u8>) -> Seq<u8>
    decreases s.len(),
{
    if s.len() == 0 {
        Seq::empty()
    } else if s[0] == 0x0D {
        without_cr(s.drop_first())
    } else {
        seq![s[0]] + without_cr(s.drop_first())
    }
}

/// The first `n` bytes, or all.
pub open spec fn at_most(s: Seq<u8>, n: int) -> Seq<u8> {
    if s.len() <= n {
        s
    } else {
        s.take(n)
    }
}

/// The bytes of a chunk that are shown where `shown` bytes of the file were shown
/// before.
pub open spec fn cat_part(shown: int, chunk: Seq<u8>) -> Seq<u8> {
    at_most(without_cr(chunk), CAT_MAX - shown)
}

/// The bytes of the next chunk of a file to show; `shown` counts them.
pub fn cat_chunk(shown: &mut usize, chunk: &[u8]) -> (out: Vec<u8>)
    requires
        *old(shown) <= CAT_MAX,
    ensures
        out@ == cat_part(*old(shown) as int, chunk@),
        *final(shown) == *old(shown) + out@.len(),
        *final(shown) <= CAT_MAX,
{
    let mut out: Vec<u8> = Vec::new();
    let n: usize = chunk.len();
    let ghost start = *shown as int;
    let ghost all = without_cr(chunk@);
    let mut i: usize = 0;
    assert(chunk@.skip(0) =~= chunk@);
    assert(out@ + without_cr(chunk@.skip(0)) =~= all);
    while i < n && *shown < CAT_MAX
        invariant
            i <= n,
            n == chunk@.len(),
            start == *old(shown),
            *shown == start + out@.len(),
            *shown <= CAT_MAX,
            all == without_cr(chunk@),
            out@ + without_cr(chunk@.skip(i as int)) == all,
        decreases n - i,
    {
        let b: u8 = chunk[i];
        let ghost before = out@;
        assert(chunk@.skip(i as int).drop_first() =~= chunk@.skip(i + 1));
        if b != 0x0D {
            out.push(b);
            *shown = *shown + 1;
        }
        i = i + 1;
        assert(out@ + without_cr(chunk@.skip(i as int)) =~= before + without_cr(
            chunk@.skip(i - 1),
        ));
    }
    proof {
        let left = without_cr(chunk@.skip(i as int));
        if i == n {
            assert(left =~= Seq::empty());
            assert(out@ =~= all);
        } else {
            assert(all.take(out@.len() as int) =~= out@);
        }
        assert(out@ =~= cat_part(start, chunk@));
    }
    out
}

proof fn lemma_without_cr_concat(a: Seq<u8>, b: Seq<u8>)
    ensures
        without_cr(a + b) == without_cr(a) + without_cr(b),
    decreases a.len(),
{
    if a.len() == 0 {
        assert(a + b =~= b);
        assert(without_cr(a) + without_cr(b) =~= without_cr(b));
    } else {
        assert((a + b).drop_first() =~= a.drop_first() + b);
        lemma_without_cr_concat(a.drop_first(), b);
        assert(without_cr(a + b) =~= without_cr(a) + without_cr(b));
    }
}

/// However a file is cut into chunks, what is shown of it is the same.
pub proof fn lemma_cat_chunks(shown: int, a: Seq<u8>, b: Seq<u8>)
    requires
        0 <= shown <= CAT_MAX,
    ensures
        cat_part(shown, a + b) == cat_part(shown, a) + cat_part(
            shown + cat_part(shown, a).len(),
            b,
        ),
{
    lemma_without_cr_concat(a, b);
    assert(cat_part(shown, a + b) =~= cat_part(shown, a) + cat_part(
        shown + cat_part(shown, a).len(),
        b,
    ));
}

/// What is printed before the file.
pub open spec fn cat_head(args: Seq<char>) -> Seq<u8> {
    utf8("--- ") + vstd::utf8::encode_utf8(args) + utf8(" ---\n")
}

/// What is printed after the file.
pub open spec fn cat_tail(found: bool, args: Seq<char>) -> Seq<u8> {
    if found {
        utf8("\n--- end ---\n")
    } else {
        utf8("File not found: ") + vstd::utf8::encode_utf8(args) + utf8("\n")
    }
}

pub fn get_cat_head(args: &str) -> (out: Vec<u8>)
    ensures
        out@ == cat_head(args@),
{
    let mut out: Vec<u8> = Vec::new();
    push_str(&mut out, "--- ");
    push_str(&mut out, args);
    push_str(&mut out, " ---\n");
    assert(out@ =~= cat_head(args@));
    out
}

pub fn get_cat_tail(found: bool, args: &str) -> (out: Vec<u8>)
    ensures
        out@ == cat_tail(found, args@),
{
    let mut out: Vec<u8> = Vec::new();
    if found {
        push_str(&mut out, "\n--- end ---\n");
    } else {
        push_str(&mut out, "File not found: ");
        push_str(&mut out, args);
        push_str(&mut out, "\n");
    }
    assert(out@ =~= cat_tail(found, args@));
    out
}

// ── Executing a line ───────────────────────────────────────────────────────

/// What a command line asks for.
#[derive(PartialEq, Eq, Debug)]
pub enum Action {
    Nothing,
    Print(Vec<u8>),
    /// Print [`get_info_text`].
    Info,
    /// Print [`get_elinfo_text`].
    ElInfo,
    /// Print [`get_usbstatus_text`].
    UsbStatus,
    /// Print [`get_ls_text`].
    List,
    /// Show the file that is stored under this name; it was typed like this. See
    /// [`cat_file`](crate::cat::cat_file).
    Cat([u8; 11], String),
    /// Clear the display, and then print this.
    Clear(Vec<u8>),
    /// Print this, and then halt.
    Halt(Vec<u8>),
}

/// [`Action`] with its texts as sequences.
pub enum ActionView {
    Nothing,
    Print(Seq<u8>),
    Info,
    ElInfo,
    UsbStatus,
    List,
    Cat(Seq<u8>, Seq<char>),
    Clear(Seq<u8>),
    Halt(Seq<u8>),
}

impl View for Action {
    type V = ActionView;

    open spec fn view(&self) -> ActionView {
        match *self {
            Action::Nothing => ActionView::Nothing,
            Action::Print(text) => ActionView::Print(text@),
            Action::Info => ActionView::Info,
            Action::ElInfo => ActionView::ElInfo,
            Action::UsbStatus => ActionView::UsbStatus,
            Action::List => ActionView::List,
            Action::Cat(name83, args) => ActionView::Cat(name83@, args@),
            Action::Clear(text) => ActionView::Clear(text@),
            Action::Halt(text) => ActionView::Halt(text@),
        }
    }
}

/// The number of characters before the first space, or the length where there is none.
pub open spec fn word_len(s: Seq<char>) -> nat
    decreases s.len(),
{
    if s.len() == 0 || s[0] == ' ' {
        0
    } else {
        1 + word_len(s.drop_first())
    }
}

/// The first word of a line.
pub open spec fn name_of(line: Seq<char>) -> Seq<char> {
    line.take(word_len(line) as int)
}

/// What follows it, without white space at the ends.
pub open spec fn args_of(line: Seq<char>) -> Seq<char> {
    if word_len(line) < line.len() {
        trimmed(line.skip(word_len(line) + 1int))
    } else {
        Seq::empty()
    }
}

pub open spec fn unknown_text(name: Seq<char>) -> Seq<u8> {
    utf8("Unknown command: '") + vstd::utf8::encode_utf8(name) + utf8("'. Type 'help'.\n")
}

/// What a line asks for.
pub open spec fn action(line: Seq<char>) -> ActionView {
    let name = name_of(line);
    let args = args_of(line);
    if name == Seq::<char>::empty() {
        ActionView::Nothing
    } else if name == "help"@ {
        ActionView::Print(help_text())
    } else if name == "info"@ {
        ActionView::Info
    } else if name == "elinfo"@ {
        ActionView::ElInfo
    } else if name == "memmap"@ {
        ActionView::Print(memmap_text())
    } else if name == "usbstatus"@ {
        ActionView::UsbStatus
    } else if name == "ls"@ {
        ActionView::List
    } else if name == "cat"@ {
        if args.len() == 0 {
            ActionView::Print(utf8("Usage: cat <FILENAME.EXT>\n"))
        } else {
            ActionView::Cat(stored_form(vstd::utf8::encode_utf8(args)), args)
        }
    } else if name == "echo"@ {
        ActionView::Print(vstd::utf8::encode_utf8(args) + utf8("\n"))
    } else if name == "clear"@ {
        ActionView::Clear(utf8("ai-os v0.4.0\n"))
    } else if name == "halt"@ {
        ActionView::Halt(utf8("Halting CPU. Goodbye.\n"))
    } else {
        ActionView::Print(unknown_text(name))
    }
}

fn same_str(a: &str, b: &str) -> (r: bool)
    ensures
        r == (a@ == b@),
{
    proof {
        vstd::utf8::encode_utf8_decode_utf8(a@);
        vstd::utf8::encode_utf8_decode_utf8(b@);
    }
    same_bytes(a.as_bytes(), b.as_bytes())
}

fn find_space(s: &str) -> (n: usize)
    ensures
        n == word_len(s@),
        n <= s@.len(),
{
    let len: usize = s.unicode_len();
    let ghost all = s@;
    let mut i: usize = 0;
    assert(all.skip(0) =~= all);
    while i < len && s.get_char(i) != ' '
        invariant
            i <= len,
            all == s@,
            len == all.len(),
            i + word_len(all.skip(i as int)) == word_len(all),
        decreases len - i,
    {
        assert(all.skip(i as int).drop_first() =~= all.skip(i + 1));
        i = i + 1;
    }
    i
}

/// Decides what a command line asks for.
pub fn execute(line: &str) -> (a: Action)
    ensures
        a@ == action(line@),
{
    let len: usize = line.unicode_len();
    let space: usize = find_space(line);
    let name: &str = line.substring_char(0, space);
    assert(name@ =~= name_of(line@));
    let args: &str = if space < len {
        trim(line.substring_char(space + 1, len))
    } else {
        line.substring_char(len, len)
    };
    assert(args@ =~= args_of(line@)) by {
        if space < len {
            assert(line@.subrange(space + 1, len as int) =~= line@.skip(space + 1));
        }
    }
    if name.is_empty() {
        assert(name@ =~= Seq::empty());
        return Action::Nothing;
    }
    if same_str(name, "help") {
        Action::Print(get_help_text())
    } else if same_str(name, "info") {
        Action::Info
    } else if same_str(name, "elinfo") {
        Action::ElInfo
    } else if same_str(name, "memmap") {
        Action::Print(get_memmap_text())
    } else if same_str(name, "usbstatus") {
        Action::UsbStatus
    } else if same_str(name, "ls") {
        Action::List
    } else if same_str(name, "cat") {
        if args.is_empty() {
            let mut out: Vec<u8> = Vec::new();
            push_str(&mut out, "Usage: cat <FILENAME.EXT>\n");
            assert(out@ =~= utf8("Usage: cat <FILENAME.EXT>\n"));
            return Action::Print(out);
        }
        Action::Cat(get_stored_form(args.as_bytes()), args.to_owned())
    } else if same_str(name, "echo") {
        let mut out: Vec<u8> = Vec::new();
        push_str(&mut out, args);
        push_str(&mut out, "\n");
        assert(out@ =~= vstd::utf8::encode_utf8(args@) + utf8("\n"));
        Action::Print(out)
    } else if same_str(name, "clear") {
        Action::Clear(get_clear_text())
    } else if same_str(name, "halt") {
        Action::Halt(get_halt_text())
    } else {
        let mut out: Vec<u8> = Vec::new();
        push_str(&mut out, "Unknown command: '");
        push_str(&mut out, name);
        push_str(&mut out, "'. Type 'help'.\n");
        assert(out@ =~= unknown_text(name@));
        Action::Print(out)
    }
}

proof fn lemma_word_len(name: Seq<char>, more: Seq<char>)
    requires
        forall|i: int| 0 <= i < name.len() ==> #[trigger] name[i] != ' ',
    ensures
        word_len(name + seq![' '] + more) == name.len(),
    decreases name.len(),
{
    let line = name + seq![' '] + more;
    if name.len() > 0 {
        lemma_word_len(name.drop_first(), more);
        assert(line[0] == name[0]);
        assert(line.drop_first() =~= name.drop_first() + seq![' '] + more);
    }
}

/// `cat` with a name asks for the file that is stored under that name.
pub proof fn lemma_cat_line(args: Seq<char>)
    requires
        args.len() > 0,
        trimmed(args) == args,
    ensures
        action("cat"@ + seq![' '] + args) == ActionView::Cat(
            stored_form(vstd::utf8::encode_utf8(args)),
            args,
        ),
{
    reveal_strlit("cat");
    reveal_strlit("help");
    reveal_strlit("info");
    reveal_strlit("elinfo");
    reveal_strlit("memmap");
    reveal_strlit("usbstatus");
    reveal_strlit("ls");
    let line = "cat"@ + seq![' '] + args;
    lemma_word_len("cat"@, args);
    assert(line.skip(4) =~= args);
    let name = name_of(line);
    assert(name =~= "cat"@);
    assert(name[0] == 'c');
    assert("help"@[0] == 'h' && "info"@[0] == 'i' && "elinfo"@[0] == 'e' && "memmap"@[0] == 'm'
        && "usbstatus"@[0] == 'u' && "ls"@[0] == 'l');
}

proof fn lemma_dot_at(s: Seq<u8>, d: int)
    requires
        0 <= d <= s.len(),
        d < s.len() ==> s[d] == 0x2E,
        forall|k: int| 0 <= k < d ==> #[trigger] s[k] != 0x2E,
    ensures
        dot_at(s) == d,
    decreases d,
{
    if d > 0 {
        let t = s.drop_first();
        assert(s[0] != 0x2E);
        assert forall|k: int| 0 <= k < d - 1 implies #[trigger] t[k] != 0x2E by {
            assert(s[k + 1] != 0x2E);
        }
        lemma_dot_at(t, d - 1);
    }
}

/// How a typed name is stored. With its first dot at `d`, or `d` the number of its bytes
/// where it has none (of sixteen, where it is longer): what is before the dot fills the
/// first eight bytes, what is behind it the last three, each filled up with spaces;
/// letters from `a` to `z` become capitals.
pub proof fn lemma_stored_form(typed: Seq<u8>, d: int, i: int)
    requires
        0 <= d <= typed.len(),
        d <= 16,
        d < typed.len() && d < 16 ==> typed[d] == 0x2E,
        forall|k: int| 0 <= k < d ==> #[trigger] typed[k] != 0x2E,
        0 <= i < 11,
    ensures
        stored_form(typed).len() == 11,
        ({
            let from = if i < 8 {
                i
            } else {
                d + 1 + (i - 8)
            };
            let there = from < typed.len() && from < 16 && (i < 8 ==> from < d);
            stored_form(typed)[i] == if !there {
                0x20u8
            } else if 97 <= typed[from] <= 122 {
                (typed[from] - 32) as u8
            } else {
                typed[from]
            }
        }),
{
    let n: int = if typed.len() < 16 {
        typed.len() as int
    } else {
        16
    };
    let s = typed.take(n).map_values(|c: u8| upper(c));
    assert forall|k: int| 0 <= k < d implies #[trigger] s[k] != 0x2E by {
        assert(typed[k] != 0x2E);
    }
    lemma_dot_at(s, d);
}

proof fn lemma_whole_word(name: Seq<char>)
    requires
        forall|i: int| 0 <= i < name.len() ==> #[trigger] name[i] != ' ',
    ensures
        word_len(name) == name.len(),
    decreases name.len(),
{
    if name.len() > 0 {
        let t = name.drop_first();
        assert forall|i: int| 0 <= i < t.len() implies #[trigger] t[i] != ' ' by {
            assert(name[i + 1] != ' ');
        }
        lemma_whole_word(t);
    }
}

/// A line is split at its first space: what is before it names the command, and what is
/// behind it, without the white space at its ends, is the command's argument.
pub proof fn lemma_line_is_split(name: Seq<char>, more: Seq<char>)
    requires
        forall|i: int| 0 <= i < name.len() ==> #[trigger] name[i] != ' ',
    ensures
        name_of(name) == name,
        args_of(name).len() == 0,
        name_of(name + seq![' '] + more) == name,
        crate::shell::is_trimmed(more, args_of(name + seq![' '] + more)),
{
    let line = name + seq![' '] + more;
    lemma_whole_word(name);
    lemma_word_len(name, more);
    assert(name.take(name.len() as int) =~= name);
    assert(line.take(name.len() as int) =~= name);
    assert(line.skip(name.len() as int + 1) =~= more);
    crate::shell::lemma_trimmed(more);
}

/// What the commands do. Each is known by its name alone; only `cat` and `echo` look at
/// their argument. A name that is not known is quoted.
pub proof fn lemma_commands(line: Seq<char>)
    ensures
        ({
            let (name, args) = (name_of(line), args_of(line));
            let typed = vstd::utf8::encode_utf8(args);
            let a = action(line);
            &&& name.len() == 0 <==> a == ActionView::Nothing
            &&& name == "info"@ <==> a == ActionView::Info
            &&& name == "elinfo"@ <==> a == ActionView::ElInfo
            &&& name == "usbstatus"@ <==> a == ActionView::UsbStatus
            &&& name == "ls"@ <==> a == ActionView::List
            &&& name == "help"@ ==> a == ActionView::Print(help_text())
            &&& name == "memmap"@ ==> a == ActionView::Print(memmap_text())
            &&& name == "cat"@ && args.len() == 0 ==> a == ActionView::Print(
                utf8("Usage: cat <FILENAME.EXT>\n"),
            )
            &&& name == "cat"@ && args.len() > 0 <==> a is Cat
            &&& a is Cat ==> a == ActionView::Cat(stored_form(typed), args)
            &&& name == "echo"@ ==> a == ActionView::Print(typed + utf8("\n"))
            &&& name == "clear"@ <==> a is Clear
            &&& a is Clear ==> a == ActionView::Clear(utf8("ai-os v0.4.0\n"))
            &&& name == "halt"@ <==> a is Halt
            &&& a is Halt ==> a == ActionView::Halt(utf8("Halting CPU. Goodbye.\n"))
            &&& name.len() > 0 && !known_names().contains(name) ==> a == ActionView::Print(
                utf8("Unknown command: '") + vstd::utf8::encode_utf8(name) + utf8(
                    "'. Type 'help'.\n",
                ),
            )
        }),
{
    reveal_strlit("help");
    reveal_strlit("info");
    reveal_strlit("elinfo");
    reveal_strlit("memmap");
    reveal_strlit("usbstatus");
    reveal_strlit("ls");
    reveal_strlit("cat");
    reveal_strlit("echo");
    reveal_strlit("clear");
    reveal_strlit("halt");
    let name = name_of(line);
    let k = known_names();
    assert(k[0] == "help"@ && k[1] == "info"@ && k[2] == "elinfo"@ && k[3] == "memmap"@ && k[4]
        == "usbstatus"@ && k[5] == "ls"@ && k[6] == "cat"@ && k[7] == "echo"@ && k[8] == "clear"@
        && k[9] == "halt"@);
    assert("help"@[0] == 'h' && "info"@[0] == 'i' && "elinfo"@[0] == 'e' && "memmap"@[0] == 'm'
        && "usbstatus"@[0] == 'u' && "ls"@[0] == 'l' && "cat"@[0] == 'c' && "echo"@[0] == 'e'
        && "clear"@[0] == 'c' && "halt"@[0] == 'h');
    assert("cat"@.len() != "clear"@.len() && "elinfo"@.len() != "echo"@.len() && "help"@[1]
        != "halt"@[1]);
    if name.len() == 0 {
        assert(name =~= Seq::<char>::empty());
    }
    if name.len() > 0 && !k.contains(name) {
        assert forall|i: int| 0 <= i < k.len() implies #[trigger] k[i] != name by {
            if k[i] == name {
                assert(k.contains(name));
            }
        }
    }
}

/// The names of the commands.
pub open spec fn known_names() -> Seq<Seq<char>> {
    seq![
        "help"@, "info"@, "elinfo"@, "memmap"@, "usbstatus"@,
        "ls"@, "cat"@, "echo"@, "clear"@, "halt"@,
    ]
}

} // verus!
