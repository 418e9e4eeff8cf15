//! The kernel's way from power-on to the shell.
//!
//! The boot is a sequence of phases. Each has a list of operations; the reply to the
//! last one decides which phase is next.
use vstd::prelude::*;
use crate::board::Board;
use crate::uart::{base_address, data_reg};
use crate::linux_vm::{LINUX_LOAD_ADDR, LINUX_INITRD_ADDR, LINUX_DTB_ADDR};
use crate::session::{Run, Next, RegOp, RegRun, cons, op_run, completes, performed, lemma_completes_step};
use crate::gpio::{Blink, blink, blink_run, delay_ms};
use crate::text::{utf8, decimal, hex, push_str, push_decimal, push_hex};

verus! {

broadcast use crate::session::lemma_cons;

/// What the boot wants done.
#[derive(PartialEq, Eq, Debug)]
pub enum BootOp {
    InitLed,
    /// Blink so many times, on and off for so many milliseconds.
    Blink(u32, u32, u32),
    InitUart,
    /// Set up the framebuffer; the reply is 1 on success, else 0.
    InitDisplay,
    /// Have the fault console remember the framebuffer:
    /// [`mirror`](crate::hv_console::mirror).
    InitFaultConsole,
    Print(Vec<u8>),
    /// Read the register CurrentEL; the reply is its value.
    CurrentEl,
    /// Initialise the SD card; the reply is 1 on success, else 0.
    InitCard,
    /// Find the volume on the card; the reply is 1 on success, else 0.
    Mount,
    /// List the card's files for diagnostics.
    ListFiles,
    /// Load the file of this name to this address; the reply is the number of bytes, 0
    /// on failure.
    Load([u8; 11], usize),
    /// Add the initramfs of this size to the device tree.
    SetupDtb(u64),
    SetupTables,
    /// Make that framebuffer read-only for the guest:
    /// [`protect`](crate::hv_console::protect).
    ProtectFramebuffer,
    /// Start the guest on core 1, with its device tree at this address.
    Launch(usize),
    WaitReady,
    /// Run the shell that reads from the UART only. It does not return.
    UartShell,
    /// Run the shell. It does not return.
    Shell,
}

/// [`BootOp`] with its texts as sequences.
pub enum BootOpView {
    InitLed,
    Blink(u32, u32, u32),
    InitUart,
    InitDisplay,
    InitFaultConsole,
    Print(Seq<u8>),
    CurrentEl,
    InitCard,
    Mount,
    ListFiles,
    Load(Seq<u8>, usize),
    SetupDtb(u64),
    SetupTables,
    ProtectFramebuffer,
    Launch(usize),
    WaitReady,
    UartShell,
    Shell,
}

impl View for BootOp {
    type V = BootOpView;

    open spec fn view(&self) -> BootOpView {
        match *self {
            BootOp::InitLed => BootOpView::InitLed,
            BootOp::Blink(n, on, off) => BootOpView::Blink(n, on, off),
            BootOp::InitUart => BootOpView::InitUart,
            BootOp::InitDisplay => BootOpView::InitDisplay,
            BootOp::InitFaultConsole => BootOpView::InitFaultConsole,
            BootOp::Print(text) => BootOpView::Print(text@),
            BootOp::CurrentEl => BootOpView::CurrentEl,
            BootOp::InitCard => BootOpView::InitCard,
            BootOp::Mount => BootOpView::Mount,
            BootOp::ListFiles => BootOpView::ListFiles,
            BootOp::Load(name, addr) => BootOpView::Load(name@, addr),
            BootOp::SetupDtb(n) => BootOpView::SetupDtb(n),
            BootOp::SetupTables => BootOpView::SetupTables,
            BootOp::ProtectFramebuffer => BootOpView::ProtectFramebuffer,
            BootOp::Launch(addr) => BootOpView::Launch(addr),
            BootOp::WaitReady => BootOpView::WaitReady,
            BootOp::UartShell => BootOpView::UartShell,
            BootOp::Shell => BootOpView::Shell,
        }
    }
}

pub type BootRun = Run<BootOpView, u64, ()>;

/// What is known of the card.
#[derive(Clone, Copy, PartialEq, Eq, Structural, Debug)]
pub enum Card {
    Missing,
    /// There is no usable volume on it.
    Unreadable,
    Mounted,
}

/// A file that the guest cannot do without.
#[derive(Clone, Copy, PartialEq, Eq, Structural, Debug)]
pub enum GuestFile {
    Kernel,
    Initrd,
    Dtb,
}

/// A phase of the boot.
#[derive(Clone, Copy, PartialEq, Eq, Structural, Debug)]
pub enum Phase {
    Start,
    /// The display is there, or not.
    Banner(bool),
    /// CurrentEL was read.
    Card(u64),
    Volume,
    LoadKernel(Card),
    /// The kernel was loaded: so many bytes.
    LoadInitrd(u64),
    /// The initramfs was loaded: so many bytes.
    LoadDtb(u64),
    /// All is loaded: the sizes of the initramfs and the device tree.
    Guest(u64, u64),
    /// A file is missing.
    Fallback(GuestFile),
}

// ── Texts ──────────────────────────────────────────────────────────────────

pub open spec fn banner_text(board: Board, display: bool) -> Seq<u8> {
    utf8("========================================\n") + utf8("  ai-os v0.4.0\n") + utf8(
        "  EL2 Hypervisor + Linux Driver VM\n",
    ) + utf8("  Board: Raspberry Pi 4 (BCM2711)\n") + utf8(
        "========================================\n",
    ) + utf8("\n") + utf8("[kernel] UART:        OK @ 0x") + hex(data_reg(board) as nat, 8, true)
        + utf8("\n") + (if display {
        utf8("[kernel] Framebuffer: OK (1280x720 @ 32bpp)\n")
    } else {
        utf8("[kernel] Framebuffer: FAILED -- UART-only mode\n")
    })
}

/// The exception level in the register CurrentEL.
pub open spec fn exception_level(current_el: u64) -> nat {
    (current_el / 4 % 4) as nat
}

pub open spec fn level_text(current_el: u64) -> Seq<u8> {
    utf8("[kernel] Exception Level: EL") + decimal(exception_level(current_el)) + utf8("\n") + utf8(
        "[kernel] Cores 1-3:   parked\n",
    ) + utf8("[kernel] SD card:     ")
}

pub open spec fn card_text(card: Card) -> Seq<u8> {
    match card {
        Card::Missing => utf8("FAILED -- check SD card\n"),
        Card::Unreadable => utf8("FAILED\n"),
        Card::Mounted => utf8("OK\n"),
    }
}

pub open spec fn kernel_text(size: u64) -> Seq<u8> {
    utf8("[kernel] Linux VM:    kernel OK (") + decimal((size / 1024) as nat) + utf8(" KB)\n")
}

pub open spec fn initrd_text(size: u64) -> Seq<u8> {
    utf8("[kernel] Linux VM:    initrd OK (") + decimal((size / 1024) as nat) + utf8(" KB)\n")
}

pub open spec fn dtb_text(size: u64) -> Seq<u8> {
    utf8("[kernel] Linux VM:    DTB OK (") + decimal(size as nat) + utf8(" bytes)\n")
}

pub open spec fn patched_text(initrd_size: u64) -> Seq<u8> {
    utf8("[kernel] Linux VM:    DTB patched (initrd @ 0x") + hex(
        LINUX_INITRD_ADDR as nat,
        8,
        true,
    ) + utf8("+") + decimal(initrd_size as nat) + utf8(")\n") + utf8("[kernel] Stage-2 MMU: ")
}

pub open spec fn tables_text() -> Seq<u8> {
    utf8("OK (4GB identity map)\n") + utf8("[kernel] Launching Linux driver VM on core 1...\n")
}

pub open spec fn launched_text() -> Seq<u8> {
    utf8("[kernel] Core 1: spin table written, SEV sent\n") + utf8(
        "[kernel] Linux VM launched (core 1 released)\n",
    ) + utf8("[kernel] USB HID:     waiting for Linux")
}

pub open spec fn entering_text() -> Seq<u8> {
    utf8("\n") + utf8("[kernel] Entering ai-os shell...\n") + utf8(
        "Type 'help' for available commands.\n",
    ) + utf8("\n")
}

pub open spec fn missing_text(file: GuestFile) -> Seq<u8> {
    (match file {
        GuestFile::Kernel => utf8(
            "[kernel] Linux VM:    FAILED -- vmlinuz-rpi missing from SD card\n",
        ) + utf8("[kernel] Copy vmlinuz-rpi to SD card root and reboot.\n"),
        GuestFile::Initrd => utf8(
            "[kernel] Linux VM:    FAILED -- initrd.gz missing from SD card\n",
        ) + utf8("[kernel] Copy initrd.gz to SD card root and reboot.\n"),
        GuestFile::Dtb => utf8(
            "[kernel] Linux VM:    FAILED -- bcm2711.dtb missing from SD card\n",
        ),
    }) + utf8("[kernel] Entering UART-only shell...\n") + utf8("\n")
}

/// The name of a file as it is stored on the card.
pub open spec fn stored_name(file: GuestFile) -> Seq<u8> {
    match file {
        GuestFile::Kernel => utf8("VMLINUZ RPI"),
        GuestFile::Initrd => utf8("INITRD  GZ "),
        GuestFile::Dtb => utf8("BCM2711 DTB"),
    }
}

// ── Phases ─────────────────────────────────────────────────────────────────

/// The operations of a phase.
#[verifier::opaque]
pub open spec fn phase_ops(board: Board, phase: Phase) -> Seq<BootOpView> {
    match phase {
        Phase::Start => seq![
            BootOpView::InitLed,
            BootOpView::Blink(3, 200, 200),
            BootOpView::InitUart,
            BootOpView::InitDisplay,
        ],
        Phase::Banner(display) => (if display {
            seq![BootOpView::InitFaultConsole, BootOpView::Blink(5, 100, 100)]
        } else {
            Seq::empty()
        }) + seq![BootOpView::Print(banner_text(board, display)), BootOpView::CurrentEl],
        Phase::Card(current_el) => seq![
            BootOpView::Print(level_text(current_el)),
            BootOpView::InitCard,
        ],
        Phase::Volume => seq![
            BootOpView::Print(utf8("OK\n") + utf8("[kernel] FAT32:       ")),
            BootOpView::Mount,
        ],
        Phase::LoadKernel(card) => seq![
            BootOpView::Print(card_text(card)),
            BootOpView::ListFiles,
            BootOpView::Print(utf8("[kernel] Linux VM:    loading...\n")),
            BootOpView::Load(stored_name(GuestFile::Kernel), LINUX_LOAD_ADDR),
        ],
        Phase::LoadInitrd(kernel) => seq![
            BootOpView::Print(kernel_text(kernel)),
            BootOpView::Load(stored_name(GuestFile::Initrd), LINUX_INITRD_ADDR),
        ],
        Phase::LoadDtb(initrd) => seq![
            BootOpView::Print(initrd_text(initrd)),
            BootOpView::Load(stored_name(GuestFile::Dtb), LINUX_DTB_ADDR),
        ],
        Phase::Guest(initrd, dtb) => seq![
            BootOpView::Print(dtb_text(dtb)),
            BootOpView::SetupDtb(initrd),
            BootOpView::Print(patched_text(initrd)),
            BootOpView::SetupTables,
            BootOpView::ProtectFramebuffer,
            BootOpView::Print(tables_text()),
            BootOpView::Launch(LINUX_DTB_ADDR),
            BootOpView::Print(launched_text()),
            BootOpView::WaitReady,
            BootOpView::Print(entering_text()),
            BootOpView::Shell,
        ],
        Phase::Fallback(file) => seq![
            BootOpView::Print(missing_text(file)),
            BootOpView::UartShell,
        ],
    }
}

/// The phase after this one, given the reply to its last operation; none after a
/// shell.
pub open spec fn next_phase(phase: Phase, reply: u64) -> Option<Phase> {
    match phase {
        Phase::Start => Some(Phase::Banner(reply != 0)),
        Phase::Banner(_) => Some(Phase::Card(reply)),
        Phase::Card(_) => Some(
            if reply != 0 {
                Phase::Volume
            } else {
                Phase::LoadKernel(Card::Missing)
            },
        ),
        Phase::Volume => Some(
            Phase::LoadKernel(
                if reply != 0 {
                    Card::Mounted
                } else {
                    Card::Unreadable
                },
            ),
        ),
        Phase::LoadKernel(_) => Some(
            if reply > 0 {
                Phase::LoadInitrd(reply)
            } else {
                Phase::Fallback(GuestFile::Kernel)
            },
        ),
        Phase::LoadInitrd(_) => Some(
            if reply > 0 {
                Phase::LoadDtb(reply)
            } else {
                Phase::Fallback(GuestFile::Initrd)
            },
        ),
        Phase::LoadDtb(initrd) => Some(
            if reply > 0 {
                Phase::Guest(initrd, reply)
            } else {
                Phase::Fallback(GuestFile::Dtb)
            },
        ),
        Phase::Guest(_, _) | Phase::Fallback(_) => None,
    }
}

/// How many phases can follow.
pub open spec fn phases_left(phase: Phase) -> nat {
    match phase {
        Phase::Start => 8,
        Phase::Banner(_) => 7,
        Phase::Card(_) => 6,
        Phase::Volume => 5,
        Phase::LoadKernel(_) => 4,
        Phase::LoadInitrd(_) => 3,
        Phase::LoadDtb(_) => 2,
        Phase::Guest(_, _) | Phase::Fallback(_) => 1,
    }
}

/// The boot from operation `i` of a phase on.
pub open spec fn phase_run(board: Board, phase: Phase, i: nat, h: Seq<u64>) -> BootRun
    decreases phases_left(phase), phase_ops(board, phase).len() - i,
{
    let ops = phase_ops(board, phase);
    if i >= ops.len() {
        Run::Finished((), h)
    } else if h.len() == 0 {
        Run::Wants(ops[i as int])
    } else if i < ops.len() - 1 {
        phase_run(board, phase, i + 1, h.drop_first())
    } else {
        match next_phase(phase, h[0]) {
            Some(next) => phase_run(board, next, 0, h.drop_first()),
            None => Run::Finished((), h.drop_first()),
        }
    }
}

/// The whole boot.
pub open spec fn kernel_main_run(board: Board, h: Seq<u64>) -> BootRun {
    phase_run(board, Phase::Start, 0, h)
}

fn get_banner_text(board: Board, display: bool) -> (out: Vec<u8>)
    ensures
        out@ == banner_text(board, display),
{
    let mut out: Vec<u8> = Vec::new();
    push_str(&mut out, "========================================\n");
    push_str(&mut out, "  ai-os v0.4.0\n");
    push_str(&mut out, "  EL2 Hypervisor + Linux Driver VM\n");
    push_str(&mut out, "  Board: Raspberry Pi 4 (BCM2711)\n");
    push_str(&mut out, "========================================\n");
    push_str(&mut out, "\n");
    push_str(&mut out, "[kernel] UART:        OK @ 0x");
    push_hex(&mut out, base_address(board) as u64, 8, true);
    push_str(&mut out, "\n");
    if display {
        push_str(&mut out, "[kernel] Framebuffer: OK (1280x720 @ 32bpp)\n");
    } else {
        push_str(&mut out, "[kernel] Framebuffer: FAILED -- UART-only mode\n");
    }
    assert(out@ =~= banner_text(board, display));
    out
}

fn get_level_text(current_el: u64) -> (out: Vec<u8>)
    ensures
        out@ == level_text(current_el),
{
    let mut out: Vec<u8> = Vec::new();
    push_str(&mut out, "[kernel] Exception Level: EL");
    push_decimal(&mut out, current_el / 4 % 4);
    push_str(&mut out, "\n");
    push_str(&mut out, "[kernel] Cores 1-3:   parked\n");
    push_str(&mut out, "[kernel] SD card:     ");
    assert(out@ =~= level_text(current_el));
    out
}

fn get_volume_text() -> (out: Vec<u8>)
    ensures
        out@ == utf8("OK\n") + utf8("[kernel] FAT32:       "),
{
    let mut out: Vec<u8> = Vec::new();
    push_str(&mut out, "OK\n");
    push_str(&mut out, "[kernel] FAT32:       ");
    assert(out@ =~= utf8("OK\n") + utf8("[kernel] FAT32:       "));
    out
}

fn get_card_text(card: Card) -> (out: Vec<u8>)
    ensures
        out@ == card_text(card),
{
    let mut out: Vec<u8> = Vec::new();
    match card {
        Card::Missing => push_str(&mut out, "FAILED -- check SD card\n"),
        Card::Unreadable => push_str(&mut out, "FAILED\n"),
        Card::Mounted => push_str(&mut out, "OK\n"),
    }
    assert(out@ =~= card_text(card));
    out
}

fn get_loading_text() -> (out: Vec<u8>)
    ensures
        out@ == utf8("[kernel] Linux VM:    loading...\n"),
{
    let mut out: Vec<u8> = Vec::new();
    push_str(&mut out, "[kernel] Linux VM:    loading...\n");
    assert(out@ =~= utf8("[kernel] Linux VM:    loading...\n"));
    out
}

fn get_kernel_text(size: u64) -> (out: Vec<u8>)
    ensures
        out@ == kernel_text(size),
{
    let mut out: Vec<u8> = Vec::new();
    push_str(&mut out, "[kernel] Linux VM:    kernel OK (");
    push_decimal(&mut out, size / 1024);
    push_str(&mut out, " KB)\n");
    assert(out@ =~= kernel_text(size));
    out
}

fn get_initrd_text(size: u64) -> (out: Vec<u8>)
    ensures
        out@ == initrd_text(size),
{
    let mut out: Vec<u8> = Vec::new();
    push_str(&mut out, "[kernel] Linux VM:    initrd OK (");
    push_decimal(&mut out, size / 1024);
    push_str(&mut out, " KB)\n");
    assert(out@ =~= initrd_text(size));
    out
}

fn get_dtb_text(size: u64) -> (out: Vec<u8>)
    ensures
        out@ == dtb_text(size),
{
    let mut out: Vec<u8> = Vec::new();
    push_str(&mut out, "[kernel] Linux VM:    DTB OK (");
    push_decimal(&mut out, size);
    push_str(&mut out, " bytes)\n");
    assert(out@ =~= dtb_text(size));
    out
}

fn get_patched_text(initrd_size: u64) -> (out: Vec<u8>)
    ensures
        out@ == patched_text(initrd_size),
{
    let mut out: Vec<u8> = Vec::new();
    push_str(&mut out, "[kernel] Linux VM:    DTB patched (initrd @ 0x");
    push_hex(&mut out, LINUX_INITRD_ADDR as u64, 8, true);
    push_str(&mut out, "+");
    push_decimal(&mut out, initrd_size);
    push_str(&mut out, ")\n");
    push_str(&mut out, "[kernel] Stage-2 MMU: ");
    assert(out@ =~= patched_text(initrd_size));
    out
}

fn get_tables_text() -> (out: Vec<u8>)
    ensures
        out@ == tables_text(),
{
    let mut out: Vec<u8> = Vec::new();
    push_str(&mut out, "OK (4GB identity map)\n");
    push_str(&mut out, "[kernel] Launching Linux driver VM on core 1...\n");
    assert(out@ =~= tables_text());
    out
}

fn get_launched_text() -> (out: Vec<u8>)
    ensures
        out@ == launched_text(),
{
    let mut out: Vec<u8> = Vec::new();
    push_str(&mut out, "[kernel] Core 1: spin table written, SEV sent\n");
    push_str(&mut out, "[kernel] Linux VM launched (core 1 released)\n");
    push_str(&mut out, "[kernel] USB HID:     waiting for Linux");
    assert(out@ =~= launched_text());
    out
}

fn get_entering_text() -> (out: Vec<u8>)
    ensures
        out@ == entering_text(),
{
    let mut out: Vec<u8> = Vec::new();
    push_str(&mut out, "\n");
    push_str(&mut out, "[kernel] Entering ai-os shell...\n");
    push_str(&mut out, "Type 'help' for available commands.\n");
    push_str(&mut out, "\n");
    assert(out@ =~= entering_text());
    out
}

fn get_missing_text(file: GuestFile) -> (out: Vec<u8>)
    ensures
        out@ == missing_text(file),
{
    let mut out: Vec<u8> = Vec::new();
    match file {
        GuestFile::Kernel => {
            push_str(&mut out, "[kernel] Linux VM:    FAILED -- vmlinuz-rpi missing from SD card\n");
            push_str(&mut out, "[kernel] Copy vmlinuz-rpi to SD card root and reboot.\n");
        },
        GuestFile::Initrd => {
            push_str(&mut out, "[kernel] Linux VM:    FAILED -- initrd.gz missing from SD card\n");
            push_str(&mut out, "[kernel] Copy initrd.gz to SD card root and reboot.\n");
        },
        GuestFile::Dtb => {
            push_str(&mut out, "[kernel] Linux VM:    FAILED -- bcm2711.dtb missing from SD card\n");
        },
    }
    push_str(&mut out, "[kernel] Entering UART-only shell...\n");
    push_str(&mut out, "\n");
    assert(out@ =~= missing_text(file));
    out
}

fn get_stored_name(file: GuestFile) -> (name: [u8; 11])
    ensures
        name@ == stored_name(file),
{
    proof {
        reveal_strlit("VMLINUZ RPI");
        reveal_strlit("INITRD  GZ ");
        reveal_strlit("BCM2711 DTB");
        vstd::utf8::is_ascii_chars_encode_utf8("VMLINUZ RPI"@);
        vstd::utf8::is_ascii_chars_encode_utf8("INITRD  GZ "@);
        vstd::utf8::is_ascii_chars_encode_utf8("BCM2711 DTB"@);
    }
    let name: [u8; 11] = match file {
        GuestFile::Kernel => [0x56, 0x4D, 0x4C, 0x49, 0x4E, 0x55, 0x5A, 0x20, 0x52, 0x50, 0x49],
        GuestFile::Initrd => [0x49, 0x4E, 0x49, 0x54, 0x52, 0x44, 0x20, 0x20, 0x47, 0x5A, 0x20],
        GuestFile::Dtb => [0x42, 0x43, 0x4D, 0x32, 0x37, 0x31, 0x31, 0x20, 0x44, 0x54, 0x42],
    };
    assert(name@ =~= stored_name(file));
    name
}

proof fn lemma_phase_has_ops(board: Board, phase: Phase)
    ensures
        0 < phase_ops(board, phase).len() <= 11,
{
    reveal(phase_ops);
}

/// Operation `i` of a phase, if it has that many.
fn get_op(board: Board, phase: Phase, i: usize) -> (op: Option<BootOp>)
    ensures
        match op {
            Some(op) => i < phase_ops(board, phase).len() && op@ == phase_ops(board, phase)[i as int],
            None => i >= phase_ops(board, phase).len(),
        },
{
    reveal(phase_ops);
    match phase {
        Phase::Start => match i {
            0 => Some(BootOp::InitLed),
            1 => Some(BootOp::Blink(3, 200, 200)),
            2 => Some(BootOp::InitUart),
            3 => Some(BootOp::InitDisplay),
            _ => None,
        },
        Phase::Banner(display) => {
            if display && i == 0 {
                return Some(BootOp::InitFaultConsole);
            }
            if display && i == 1 {
                return Some(BootOp::Blink(5, 100, 100));
            }
            let k: usize = if display {
                i - 2
            } else {
                i
            };
            match k {
                0 => Some(BootOp::Print(get_banner_text(board, display))),
                1 => Some(BootOp::CurrentEl),
                _ => None,
            }
        },
        Phase::Card(current_el) => match i {
            0 => Some(BootOp::Print(get_level_text(current_el))),
            1 => Some(BootOp::InitCard),
            _ => None,
        },
        Phase::Volume => match i {
            0 => Some(BootOp::Print(get_volume_text())),
            1 => Some(BootOp::Mount),
            _ => None,
        },
        Phase::LoadKernel(card) => match i {
            0 => Some(BootOp::Print(get_card_text(card))),
            1 => Some(BootOp::ListFiles),
            2 => Some(BootOp::Print(get_loading_text())),
            3 => Some(BootOp::Load(get_stored_name(GuestFile::Kernel), LINUX_LOAD_ADDR)),
            _ => None,
        },
        Phase::LoadInitrd(kernel) => match i {
            0 => Some(BootOp::Print(get_kernel_text(kernel))),
            1 => Some(BootOp::Load(get_stored_name(GuestFile::Initrd), LINUX_INITRD_ADDR)),
            _ => None,
        },
        Phase::LoadDtb(initrd) => match i {
            0 => Some(BootOp::Print(get_initrd_text(initrd))),
            1 => Some(BootOp::Load(get_stored_name(GuestFile::Dtb), LINUX_DTB_ADDR)),
            _ => None,
        },
        Phase::Guest(initrd, dtb) => match i {
            0 => Some(BootOp::Print(get_dtb_text(dtb))),
            1 => Some(BootOp::SetupDtb(initrd)),
            2 => Some(BootOp::Print(get_patched_text(initrd))),
            3 => Some(BootOp::SetupTables),
            4 => Some(BootOp::ProtectFramebuffer),
            5 => Some(BootOp::Print(get_tables_text())),
            6 => Some(BootOp::Launch(LINUX_DTB_ADDR)),
            7 => Some(BootOp::Print(get_launched_text())),
            8 => Some(BootOp::WaitReady),
            9 => Some(BootOp::Print(get_entering_text())),
            10 => Some(BootOp::Shell),
            _ => None,
        },
        Phase::Fallback(file) => match i {
            0 => Some(BootOp::Print(get_missing_text(file))),
            1 => Some(BootOp::UartShell),
            _ => None,
        },
    }
}

fn get_next_phase(phase: Phase, reply: u64) -> (next: Option<Phase>)
    ensures
        next == next_phase(phase, reply),
{
    match phase {
        Phase::Start => Some(Phase::Banner(reply != 0)),
        Phase::Banner(_) => Some(Phase::Card(reply)),
        Phase::Card(_) => if reply != 0 {
            Some(Phase::Volume)
        } else {
            Some(Phase::LoadKernel(Card::Missing))
        },
        Phase::Volume => if reply != 0 {
            Some(Phase::LoadKernel(Card::Mounted))
        } else {
            Some(Phase::LoadKernel(Card::Unreadable))
        },
        Phase::LoadKernel(_) => if reply > 0 {
            Some(Phase::LoadInitrd(reply))
        } else {
            Some(Phase::Fallback(GuestFile::Kernel))
        },
        Phase::LoadInitrd(_) => if reply > 0 {
            Some(Phase::LoadDtb(reply))
        } else {
            Some(Phase::Fallback(GuestFile::Initrd))
        },
        Phase::LoadDtb(initrd) => if reply > 0 {
            Some(Phase::Guest(initrd, reply))
        } else {
            Some(Phase::Fallback(GuestFile::Dtb))
        },
        Phase::Guest(_, _) | Phase::Fallback(_) => None,
    }
}

/// The boot under way.
pub struct Boot {
    board: Board,
    phase: Phase,
    i: usize,
    over: bool,
}

impl Boot {
    /// What happens from here on.
    pub closed spec fn run(self, h: Seq<u64>) -> BootRun {
        if self.over {
            Run::Finished((), h)
        } else {
            phase_run(self.board, self.phase, self.i as nat, h)
        }
    }

    pub closed spec fn wf(self) -> bool {
        self.i < phase_ops(self.board, self.phase).len()
    }

    /// What is wanted next.
    pub fn next(&self) -> (r: Next<BootOp, ()>)
        requires
            self.wf(),
        ensures
            match r {
                Next::Op(op) => self.run(Seq::empty()) == BootRun::Wants(op@),
                Next::Done(v) => forall|h: Seq<u64>| #[trigger]
                    self.run(h) == BootRun::Finished(v, h),
            },
    {
        if self.over {
            Next::Done(())
        } else {
            match get_op(self.board, self.phase, self.i) {
                Some(op) => Next::Op(op),
                None => Next::Done(()),
            }
        }
    }

    /// Goes on with the reply; to most operations it does not matter.
    pub fn answer(&mut self, r: u64)
        requires
            old(self).wf(),
            old(self).run(Seq::empty()) is Wants,
        ensures
            final(self).wf(),
            forall|h: Seq<u64>|
                #![trigger final(self).run(h)]
                #![trigger old(self).run(cons(r, h))]
                final(self).run(h) == old(self).run(cons(r, h)),
    {
        proof {
            lemma_phase_has_ops(self.board, self.phase);
        }
        match get_op(self.board, self.phase, self.i + 1) {
            Some(_) => {
                self.i = self.i + 1;
            },
            None => match get_next_phase(self.phase, r) {
                Some(next) => {
                    proof {
                        lemma_phase_has_ops(self.board, next);
                    }
                    self.phase = next;
                    self.i = 0;
                },
                None => {
                    self.over = true;
                },
            },
        }
    }
}

/// The boot: sets up the board, loads Linux and starts it on core 1, and ends in the
/// shell.
pub fn kernel_main(board: Board) -> (m: Boot)
    ensures
        m.wf(),
        forall|h: Seq<u64>| #[trigger] m.run(h) == kernel_main_run(board, h),
{
    proof {
        lemma_phase_has_ops(board, Phase::Start);
    }
    Boot { board, phase: Phase::Start, i: 0, over: false }
}

// ── The course of the boot ─────────────────────────────────────────────────

/// All that is done from a phase on, where `answers` says how operations are replied
/// to.
pub open spec fn boot_ops(board: Board, phase: Phase, answers: spec_fn(BootOpView) -> u64) -> Seq<
    BootOpView,
>
    decreases phases_left(phase),
{
    let ops = phase_ops(board, phase);
    ops + (match next_phase(phase, answers(ops.last())) {
        Some(next) => boot_ops(board, next, answers),
        None => Seq::empty(),
    })
}

proof fn lemma_phase(board: Board, phase: Phase, i: nat, answers: spec_fn(BootOpView) -> u64) -> (h:
    Seq<u64>)
    requires
        i < phase_ops(board, phase).len(),
    ensures
        completes(|h: Seq<u64>| phase_run(board, phase, i, h), answers, h, ()),
        performed(|h: Seq<u64>| phase_run(board, phase, i, h), h) == boot_ops(
            board,
            phase,
            answers,
        ).skip(i as int),
    decreases phases_left(phase), phase_ops(board, phase).len() - i,
{
    let ops = phase_ops(board, phase);
    let all = boot_ops(board, phase, answers);
    let script = |h: Seq<u64>| phase_run(board, phase, i, h);
    let op = ops[i as int];
    let r = answers(op);
    assert(all.skip(i as int) =~= seq![op] + all.skip(i + 1int));
    if i < ops.len() - 1 {
        let left = |h: Seq<u64>| phase_run(board, phase, i + 1, h);
        let g = lemma_phase(board, phase, i + 1, answers);
        lemma_completes_step(script, left, answers, op, g, ());
        cons(r, g)
    } else {
        assert(op == ops.last());
        match next_phase(phase, r) {
            Some(next) => {
                lemma_phase_has_ops(board, next);
                let left = |h: Seq<u64>| phase_run(board, next, 0, h);
                let g = lemma_phase(board, next, 0, answers);
                lemma_completes_step(script, left, answers, op, g, ());
                assert(all.skip(i + 1int) =~= boot_ops(board, next, answers).skip(0));
                cons(r, g)
            },
            None => {
                let none = Seq::<u64>::empty();
                let left = |h: Seq<u64>| BootRun::Finished((), h);
                lemma_completes_step(script, left, answers, op, none, ());
                assert(performed(left, none) =~= Seq::empty());
                assert(all.skip(i + 1int) =~= Seq::empty());
                cons(r, none)
            },
        }
    }
}

/// The boot always comes to its end, and does what [`boot_ops`] says.
pub proof fn lemma_boot(board: Board, answers: spec_fn(BootOpView) -> u64) -> (h: Seq<u64>)
    ensures
        completes(|h: Seq<u64>| kernel_main_run(board, h), answers, h, ()),
        performed(|h: Seq<u64>| kernel_main_run(board, h), h) == boot_ops(
            board,
            Phase::Start,
            answers,
        ),
{
    lemma_phase_has_ops(board, Phase::Start);
    let h = lemma_phase(board, Phase::Start, 0, answers);
    let all = boot_ops(board, Phase::Start, answers);
    assert(all.skip(0) =~= all);
    assert((|h: Seq<u64>| kernel_main_run(board, h)) =~= (|h: Seq<u64>|
        phase_run(board, Phase::Start, 0, h)));
    h
}

/// The operation that loads a file of the guest.
pub open spec fn load_op(file: GuestFile) -> BootOpView {
    BootOpView::Load(
        stored_name(file),
        match file {
            GuestFile::Kernel => LINUX_LOAD_ADDR,
            GuestFile::Initrd => LINUX_INITRD_ADDR,
            GuestFile::Dtb => LINUX_DTB_ADDR,
        },
    )
}

/// The first file of the guest that could not be loaded.
pub open spec fn first_missing(answers: spec_fn(BootOpView) -> u64) -> Option<GuestFile> {
    if answers(load_op(GuestFile::Kernel)) == 0 {
        Some(GuestFile::Kernel)
    } else if answers(load_op(GuestFile::Initrd)) == 0 {
        Some(GuestFile::Initrd)
    } else if answers(load_op(GuestFile::Dtb)) == 0 {
        Some(GuestFile::Dtb)
    } else {
        None
    }
}

/// The last phase of the boot.
pub open spec fn last_phase(answers: spec_fn(BootOpView) -> u64) -> Phase {
    match first_missing(answers) {
        Some(file) => Phase::Fallback(file),
        None => Phase::Guest(
            answers(load_op(GuestFile::Initrd)),
            answers(load_op(GuestFile::Dtb)),
        ),
    }
}

/// An operation that belongs to the guest's phase alone.
pub open spec fn starts_guest(op: BootOpView) -> bool {
    op is SetupDtb || op is SetupTables || op is ProtectFramebuffer || op is Launch
        || op is WaitReady || op is Shell
}

/// Before its last phase the boot starts nothing of the guest, and each file is asked
/// for in a phase of its own.
proof fn lemma_early_phase(board: Board, phase: Phase)
    requires
        !(phase is Guest) && !(phase is Fallback),
    ensures
        forall|i: int|
            0 <= i < phase_ops(board, phase).len() ==> !starts_guest(
                #[trigger] phase_ops(board, phase)[i],
            ),
        phase is LoadKernel ==> phase_ops(board, phase).last() == load_op(GuestFile::Kernel),
        phase is LoadInitrd ==> phase_ops(board, phase).last() == load_op(GuestFile::Initrd),
        phase is LoadDtb ==> phase_ops(board, phase).last() == load_op(GuestFile::Dtb),
{
    reveal(phase_ops);
}

proof fn lemma_ending(board: Board, phase: Phase, answers: spec_fn(BootOpView) -> u64) -> (before:
    Seq<BootOpView>)
    requires
        !(phase is Guest) && !(phase is Fallback),
        phase is LoadInitrd ==> answers(load_op(GuestFile::Kernel)) > 0,
        phase matches Phase::LoadDtb(n) ==> answers(load_op(GuestFile::Kernel)) > 0 && n == answers(
            load_op(GuestFile::Initrd),
        ) && n > 0,
    ensures
        boot_ops(board, phase, answers) == before + phase_ops(board, last_phase(answers)),
        forall|i: int| 0 <= i < before.len() ==> !starts_guest(#[trigger] before[i]),
    decreases phases_left(phase),
{
    lemma_early_phase(board, phase);
    let ops = phase_ops(board, phase);
    let next = next_phase(phase, answers(ops.last()))->Some_0;
    if next is Guest || next is Fallback {
        assert(boot_ops(board, next, answers) =~= phase_ops(board, next));
        ops
    } else {
        let later = lemma_ending(board, next, answers);
        assert(ops + (later + phase_ops(board, last_phase(answers))) =~= ops + later + phase_ops(
            board,
            last_phase(answers),
        ));
        ops + later
    }
}

/// The guest is started if and only if its kernel, its initramfs and its device tree
/// were all loaded. Then its device tree is patched and the page tables are set up
/// before core 1 is released, and the boot ends in the shell; otherwise nothing of
/// this happens and the boot ends in the shell on the UART.
pub proof fn lemma_guest_needs_all_files(board: Board, answers: spec_fn(BootOpView) -> u64) -> (r: (
    Seq<u64>,
    Seq<BootOpView>,
))
    ensures
        completes(|h: Seq<u64>| kernel_main_run(board, h), answers, r.0, ()),
        performed(|h: Seq<u64>| kernel_main_run(board, h), r.0) == r.1 + phase_ops(
            board,
            last_phase(answers),
        ),
        forall|i: int| 0 <= i < r.1.len() ==> !starts_guest(#[trigger] r.1[i]),
{
    let h = lemma_boot(board, answers);
    let before = lemma_ending(board, Phase::Start, answers);
    (h, before)
}

/// Where there is a display, the boot has the fault console remember it before anything
/// else is done with it.
proof fn lemma_fault_console(board: Board, answers: spec_fn(BootOpView) -> u64)
    requires
        answers(BootOpView::InitDisplay) != 0,
    ensures
        boot_ops(board, Phase::Start, answers).len() > 4,
        boot_ops(board, Phase::Start, answers)[3] is InitDisplay,
        boot_ops(board, Phase::Start, answers)[4] is InitFaultConsole,
{
    reveal(phase_ops);
    let start = phase_ops(board, Phase::Start);
    let banner = phase_ops(board, Phase::Banner(true));
    let later = boot_ops(board, Phase::Banner(true), answers);
    assert(start.last() is InitDisplay);
    assert(later[0] == banner[0]);
    assert(boot_ops(board, Phase::Start, answers) == start + later);
}

/// Before the guest is started its page tables are set up, and then the framebuffer is
/// protected in them; where there is a display, the fault console has remembered it.
pub proof fn lemma_framebuffer_is_guarded(
    board: Board,
    answers: spec_fn(BootOpView) -> u64,
    launch: int,
) -> (r: (Seq<u64>, (int, int)))
    requires
        0 <= launch < boot_ops(board, Phase::Start, answers).len(),
        boot_ops(board, Phase::Start, answers)[launch] is Launch,
    ensures
        ({
            let ops = boot_ops(board, Phase::Start, answers);
            let (h, (tables, protect)) = r;
            &&& completes(|h: Seq<u64>| kernel_main_run(board, h), answers, h, ())
            &&& performed(|h: Seq<u64>| kernel_main_run(board, h), h) == ops
            &&& 0 <= tables < protect < launch
            &&& ops[tables] is SetupTables
            &&& ops[protect] is ProtectFramebuffer
            &&& answers(BootOpView::InitDisplay) != 0 ==> 4 < tables && ops[3] is InitDisplay
                && ops[4] is InitFaultConsole
        }),
{
    let h = lemma_boot(board, answers);
    let ops = boot_ops(board, Phase::Start, answers);
    let before = lemma_ending(board, Phase::Start, answers);
    let n = before.len() as int;
    let last = phase_ops(board, last_phase(answers));
    assert(launch >= n) by {
        if launch < n {
            assert(ops[launch] == before[launch]);
        }
    }
    assert(ops[launch] == last[launch - n]);
    assert(last[3] is SetupTables && last[4] is ProtectFramebuffer && launch - n == 6) by {
        reveal(phase_ops);
    }
    assert(ops[n + 3] == last[3] && ops[n + 4] == last[4]);
    if answers(BootOpView::InitDisplay) != 0 {
        lemma_fault_console(board, answers);
        assert(n > 1) by {
            if n + 3 <= 4 {
                lemma_early_ops(board, answers);
            }
        }
    }
    (h, (n + 3, n + 4))
}

/// The boot starts with the LED and the UART, and asks for the display.
proof fn lemma_early_ops(board: Board, answers: spec_fn(BootOpView) -> u64)
    ensures
        boot_ops(board, Phase::Start, answers).len() > 4,
        forall|i: int|
            0 <= i <= 4 ==> !(#[trigger] boot_ops(board, Phase::Start, answers)[i] is SetupTables),
{
    reveal(phase_ops);
    let start = phase_ops(board, Phase::Start);
    let next = Phase::Banner(answers(BootOpView::InitDisplay) != 0);
    let later = boot_ops(board, next, answers);
    assert(start.last() is InitDisplay);
    assert(later[0] == phase_ops(board, next)[0]);
    assert(boot_ops(board, Phase::Start, answers) == start + later);
}

// ── The course of the boot, step by step ───────────────────────────────────

/// The end of a boot without a file of the guest.
pub open spec fn course_without(file: GuestFile) -> Seq<BootOpView> {
    seq![BootOpView::Print(missing_text(file)), BootOpView::UartShell]
}

/// From the device tree on, with an initramfs of `initrd` bytes.
pub open spec fn course_from_tree(answers: spec_fn(BootOpView) -> u64, initrd: u64) -> Seq<
    BootOpView,
> {
    let load = BootOpView::Load(utf8("BCM2711 DTB"), 0x3B50_0000);
    seq![BootOpView::Print(initrd_text(initrd)), load] + if answers(load) == 0 {
        course_without(GuestFile::Dtb)
    } else {
        seq![
            BootOpView::Print(dtb_text(answers(load))),
            BootOpView::SetupDtb(initrd),
            BootOpView::Print(patched_text(initrd)),
            BootOpView::SetupTables,
            BootOpView::ProtectFramebuffer,
            BootOpView::Print(tables_text()),
            BootOpView::Launch(0x3B50_0000),
            BootOpView::Print(launched_text()),
            BootOpView::WaitReady,
            BootOpView::Print(entering_text()),
            BootOpView::Shell,
        ]
    }
}

/// From the kernel on, with what is known of the card.
pub open spec fn course_from_kernel(answers: spec_fn(BootOpView) -> u64, card: Card) -> Seq<
    BootOpView,
> {
    let kernel = BootOpView::Load(utf8("VMLINUZ RPI"), 0x0040_0000);
    let initrd = BootOpView::Load(utf8("INITRD  GZ "), 0x0200_0000);
    seq![
        BootOpView::Print(card_text(card)),
        BootOpView::ListFiles,
        BootOpView::Print(utf8("[kernel] Linux VM:    loading...\n")),
        kernel,
    ] + if answers(kernel) == 0 {
        course_without(GuestFile::Kernel)
    } else {
        seq![BootOpView::Print(kernel_text(answers(kernel))), initrd] + if answers(initrd) == 0 {
            course_without(GuestFile::Initrd)
        } else {
            course_from_tree(answers, answers(initrd))
        }
    }
}

/// The whole course of the boot.
pub open spec fn course(board: Board, answers: spec_fn(BootOpView) -> u64) -> Seq<BootOpView> {
    let display = answers(BootOpView::InitDisplay) != 0;
    let card = answers(BootOpView::InitCard) != 0;
    let volume = answers(BootOpView::Mount) != 0;
    seq![
        BootOpView::InitLed,
        BootOpView::Blink(3, 200, 200),
        BootOpView::InitUart,
        BootOpView::InitDisplay,
    ] + ((if display {
        seq![BootOpView::InitFaultConsole, BootOpView::Blink(5, 100, 100)]
    } else {
        Seq::empty()
    }) + seq![BootOpView::Print(banner_text(board, display)), BootOpView::CurrentEl] + (seq![
        BootOpView::Print(level_text(answers(BootOpView::CurrentEl))),
        BootOpView::InitCard,
    ] + if card {
        seq![
            BootOpView::Print(utf8("OK\n") + utf8("[kernel] FAT32:       ")),
            BootOpView::Mount,
        ] + course_from_kernel(
            answers,
            if volume {
                Card::Mounted
            } else {
                Card::Unreadable
            },
        )
    } else {
        course_from_kernel(answers, Card::Missing)
    }))
}

proof fn lemma_course_from_tree(board: Board, answers: spec_fn(BootOpView) -> u64, initrd: u64)
    ensures
        boot_ops(board, Phase::LoadDtb(initrd), answers) == course_from_tree(answers, initrd),
{
    reveal(phase_ops);
    let load = BootOpView::Load(utf8("BCM2711 DTB"), 0x3B50_0000);
    let ops = phase_ops(board, Phase::LoadDtb(initrd));
    assert(ops.last() == load);
    let n = answers(load);
    assert(boot_ops(board, Phase::Guest(initrd, n), answers) =~= phase_ops(
        board,
        Phase::Guest(initrd, n),
    ));
    assert(boot_ops(board, Phase::Fallback(GuestFile::Dtb), answers) =~= course_without(
        GuestFile::Dtb,
    ));
}

proof fn lemma_course_from_kernel(board: Board, answers: spec_fn(BootOpView) -> u64, card: Card)
    ensures
        boot_ops(board, Phase::LoadKernel(card), answers) == course_from_kernel(answers, card),
{
    reveal(phase_ops);
    let kernel = BootOpView::Load(utf8("VMLINUZ RPI"), 0x0040_0000);
    let initrd = BootOpView::Load(utf8("INITRD  GZ "), 0x0200_0000);
    assert(phase_ops(board, Phase::LoadKernel(card)).last() == kernel);
    let k = answers(kernel);
    assert(phase_ops(board, Phase::LoadInitrd(k)).last() == initrd);
    let n = answers(initrd);
    lemma_course_from_tree(board, answers, n);
    assert(boot_ops(board, Phase::Fallback(GuestFile::Kernel), answers) =~= course_without(
        GuestFile::Kernel,
    ));
    assert(boot_ops(board, Phase::Fallback(GuestFile::Initrd), answers) =~= course_without(
        GuestFile::Initrd,
    ));
    assert(boot_ops(board, Phase::LoadInitrd(k), answers) == phase_ops(
        board,
        Phase::LoadInitrd(k),
    ) + if n == 0 {
        course_without(GuestFile::Initrd)
    } else {
        course_from_tree(answers, n)
    });
}

/// The operations of the first phases.
proof fn lemma_first_phases(board: Board, display: bool, el: u64)
    ensures
        phase_ops(board, Phase::Start) == seq![
            BootOpView::InitLed,
            BootOpView::Blink(3, 200, 200),
            BootOpView::InitUart,
            BootOpView::InitDisplay,
        ],
        phase_ops(board, Phase::Banner(display)) == (if display {
            seq![BootOpView::InitFaultConsole, BootOpView::Blink(5, 100, 100)]
        } else {
            Seq::empty()
        }) + seq![BootOpView::Print(banner_text(board, display)), BootOpView::CurrentEl],
        phase_ops(board, Phase::Card(el)) == seq![
            BootOpView::Print(level_text(el)),
            BootOpView::InitCard,
        ],
        phase_ops(board, Phase::Volume) == seq![
            BootOpView::Print(utf8("OK\n") + utf8("[kernel] FAT32:       ")),
            BootOpView::Mount,
        ],
        phase_ops(board, Phase::Start).last() is InitDisplay,
        phase_ops(board, Phase::Banner(display)).last() is CurrentEl,
        phase_ops(board, Phase::Card(el)).last() is InitCard,
        phase_ops(board, Phase::Volume).last() is Mount,
{
    reveal(phase_ops);
}

/// From the volume on.
proof fn lemma_course_from_volume(board: Board, answers: spec_fn(BootOpView) -> u64)
    ensures
        boot_ops(board, Phase::Volume, answers) == seq![
            BootOpView::Print(utf8("OK\n") + utf8("[kernel] FAT32:       ")),
            BootOpView::Mount,
        ] + course_from_kernel(
            answers,
            if answers(BootOpView::Mount) != 0 {
                Card::Mounted
            } else {
                Card::Unreadable
            },
        ),
{
    lemma_first_phases(board, true, 0);
    lemma_course_from_kernel(
        board,
        answers,
        if answers(BootOpView::Mount) != 0 {
            Card::Mounted
        } else {
            Card::Unreadable
        },
    );
}

/// From the card on.
proof fn lemma_course_from_card(board: Board, answers: spec_fn(BootOpView) -> u64, el: u64)
    ensures
        boot_ops(board, Phase::Card(el), answers) == seq![
            BootOpView::Print(level_text(el)),
            BootOpView::InitCard,
        ] + if answers(BootOpView::InitCard) != 0 {
            boot_ops(board, Phase::Volume, answers)
        } else {
            course_from_kernel(answers, Card::Missing)
        },
{
    lemma_first_phases(board, true, el);
    lemma_course_from_kernel(board, answers, Card::Missing);
}

/// From the banner on.
proof fn lemma_course_from_banner(board: Board, answers: spec_fn(BootOpView) -> u64, display: bool)
    ensures
        boot_ops(board, Phase::Banner(display), answers) == phase_ops(
            board,
            Phase::Banner(display),
        ) + boot_ops(board, Phase::Card(answers(BootOpView::CurrentEl)), answers),
        boot_ops(board, Phase::Start, answers) == phase_ops(board, Phase::Start) + boot_ops(
            board,
            Phase::Banner(answers(BootOpView::InitDisplay) != 0),
            answers,
        ),
{
    lemma_first_phases(board, display, 0);
}

/// Whatever is found, the boot takes its course.
pub proof fn lemma_course(board: Board, answers: spec_fn(BootOpView) -> u64) -> (h: Seq<u64>)
    ensures
        completes(|h: Seq<u64>| kernel_main_run(board, h), answers, h, ()),
        performed(|h: Seq<u64>| kernel_main_run(board, h), h) == course(board, answers),
{
    let display = answers(BootOpView::InitDisplay) != 0;
    let el = answers(BootOpView::CurrentEl);
    lemma_first_phases(board, display, el);
    lemma_course_from_banner(board, answers, display);
    lemma_course_from_card(board, answers, el);
    lemma_course_from_volume(board, answers);
    lemma_boot(board, answers)
}

/// Before the kernel is loaded nothing is started.
proof fn lemma_course_head(board: Board, answers: spec_fn(BootOpView) -> u64) -> (r: (
    Seq<BootOpView>,
    Card,
))
    ensures
        course(board, answers) == r.0 + course_from_kernel(answers, r.1),
        forall|q: int| 0 <= q < r.0.len() ==> !(#[trigger] r.0[q] is Launch),
{
    let display = answers(BootOpView::InitDisplay) != 0;
    let a = seq![
        BootOpView::InitLed,
        BootOpView::Blink(3, 200, 200),
        BootOpView::InitUart,
        BootOpView::InitDisplay,
    ];
    let b = (if display {
        seq![BootOpView::InitFaultConsole, BootOpView::Blink(5, 100, 100)]
    } else {
        Seq::empty()
    }) + seq![BootOpView::Print(banner_text(board, display)), BootOpView::CurrentEl];
    let c = seq![
        BootOpView::Print(level_text(answers(BootOpView::CurrentEl))),
        BootOpView::InitCard,
    ];
    if answers(BootOpView::InitCard) != 0 {
        let card = if answers(BootOpView::Mount) != 0 {
            Card::Mounted
        } else {
            Card::Unreadable
        };
        let d = seq![
            BootOpView::Print(utf8("OK\n") + utf8("[kernel] FAT32:       ")),
            BootOpView::Mount,
        ];
        let rest = course_from_kernel(answers, card);
        assert(a + (b + (c + (d + rest))) =~= a + b + c + d + rest);
        (a + b + c + d, card)
    } else {
        let rest = course_from_kernel(answers, Card::Missing);
        assert(a + (b + (c + rest)) =~= a + b + c + rest);
        (a + b + c, Card::Missing)
    }
}

proof fn lemma_launch_in_course(
    answers: spec_fn(BootOpView) -> u64,
    card: Card,
    i: int,
    a: usize,
)
    requires
        0 <= i < course_from_kernel(answers, card).len(),
        course_from_kernel(answers, card)[i] == BootOpView::Launch(a),
    ensures
        a == 0x3B50_0000,
        7 < i,
        ({
            let rest = course_from_kernel(answers, card);
            &&& rest[3] == BootOpView::Load(utf8("VMLINUZ RPI"), 0x0040_0000)
            &&& answers(rest[3]) > 0
            &&& rest[7] == BootOpView::Load(utf8("BCM2711 DTB"), 0x3B50_0000)
            &&& answers(rest[7]) > 0
        }),
{
    let rest = course_from_kernel(answers, card);
    let kernel = BootOpView::Load(utf8("VMLINUZ RPI"), 0x0040_0000);
    let initrd = BootOpView::Load(utf8("INITRD  GZ "), 0x0200_0000);
    let tree = BootOpView::Load(utf8("BCM2711 DTB"), 0x3B50_0000);
    assert(rest[3] == kernel);
    if answers(kernel) != 0 && answers(initrd) != 0 {
        let last = course_from_tree(answers, answers(initrd));
        assert(rest.skip(6) =~= last);
        assert(rest[7] == last[1]);
        assert(i >= 6);
        assert(rest[i] == last[i - 6]);
    }
}

/// What is started is what was loaded: Linux is entered where its kernel was put, and
/// gets the address to which its device tree was loaded; and what is loaded lies apart:
/// the kernel below the initramfs, both below the page tables, and those below the
/// device tree.
pub proof fn lemma_loaded_is_started(board: Board, answers: spec_fn(BootOpView) -> u64, i: int, a: usize)
    requires
        0 <= i < course(board, answers).len(),
        course(board, answers)[i] == BootOpView::Launch(a),
    ensures
        exists|j: int|
            0 <= j < i && #[trigger] course(board, answers)[j] == BootOpView::Load(
                utf8("BCM2711 DTB"),
                a,
            ) && answers(course(board, answers)[j]) > 0,
        exists|j: int|
            0 <= j < i && #[trigger] course(board, answers)[j] == BootOpView::Load(
                utf8("VMLINUZ RPI"),
                crate::linux_vm::entry_regs(a as u64).elr_el2 as usize,
            ) && answers(course(board, answers)[j]) > 0,
        crate::linux_vm::entry_regs(a as u64).x0 == a,
        0x0040_0000 < 0x0200_0000 && 0x0200_0000
            < crate::linux_vm::stage2_regs().vttbr_el2 && crate::linux_vm::stage2_regs().vttbr_el2
            + 8 * 8192 <= a,
{
    let all = course(board, answers);
    let (head, card) = lemma_course_head(board, answers);
    let p = head.len() as int;
    let rest = course_from_kernel(answers, card);
    assert(all[i] == if i < p {
        head[i]
    } else {
        rest[i - p]
    });
    lemma_launch_in_course(answers, card, i - p, a);
    assert(all[p + 3] == rest[3] && all[p + 7] == rest[7]);
}

// ── Panic ──────────────────────────────────────────────────────────────────

/// One round of the pattern that the LED blinks for ever after a panic: three short,
/// three long, three short, a pause.
pub open spec fn panic_round_run(board: Board, h: Seq<u32>) -> RegRun<()> {
    blink_run(board, 3, 100, 100, h).and_then(|_u: (), h: Seq<u32>| panic_long_run(board, h))
}

pub open spec fn panic_long_run(board: Board, h: Seq<u32>) -> RegRun<()> {
    blink_run(board, 3, 300, 100, h).and_then(|_u: (), h: Seq<u32>| panic_short_run(board, h))
}

pub open spec fn panic_short_run(board: Board, h: Seq<u32>) -> RegRun<()> {
    blink_run(board, 3, 100, 100, h).and_then(|_u: (), h: Seq<u32>| panic_pause_run(h))
}

pub open spec fn panic_pause_run(h: Seq<u32>) -> RegRun<()> {
    op_run(RegOp::Nops(750_000), h).and_then(|_r: u32, h: Seq<u32>| Run::Finished((), h))
}

enum PanicStage {
    First(Blink),
    Long(Blink),
    Short(Blink),
    Pause,
    Done,
}

/// A round of the panic pattern under way.
pub struct PanicRound {
    board: Board,
    stage: PanicStage,
}

impl PanicRound {
    pub closed spec fn wf(self) -> bool {
        match self.stage {
            PanicStage::First(b) | PanicStage::Long(b) | PanicStage::Short(b) => b.wf() && b.run(
                Seq::empty(),
            ) is Wants,
            _ => true,
        }
    }

    /// What happens from here on.
    pub closed spec fn run(self, h: Seq<u32>) -> RegRun<()> {
        let board = self.board;
        match self.stage {
            PanicStage::First(b) => b.run(h).and_then(
                |_u: (), h: Seq<u32>| panic_long_run(board, h),
            ),
            PanicStage::Long(b) => b.run(h).and_then(
                |_u: (), h: Seq<u32>| panic_short_run(board, h),
            ),
            PanicStage::Short(b) => b.run(h).and_then(|_u: (), h: Seq<u32>| panic_pause_run(h)),
            PanicStage::Pause => panic_pause_run(h),
            PanicStage::Done => Run::Finished((), h),
        }
    }

    pub fn next(&self) -> (r: Next<RegOp, ()>)
        requires
            self.wf(),
        ensures
            r == self.run(Seq::empty()).asks(),
            r matches Next::Done(v) ==> forall|h: Seq<u32>| #[trigger]
                self.run(h) == RegRun::Finished(v, h),
    {
        match &self.stage {
            PanicStage::First(b) | PanicStage::Long(b) | PanicStage::Short(b) => b.next(),
            PanicStage::Pause => Next::Op(delay_ms(500)),
            PanicStage::Done => Next::Done(()),
        }
    }

    pub fn answer(&mut self, r: u32)
        requires
            old(self).wf(),
            old(self).run(Seq::empty()) is Wants,
        ensures
            final(self).wf(),
            forall|h: Seq<u32>|
                #![trigger final(self).run(h)]
                #![trigger old(self).run(cons(r, h))]
                final(self).run(h) == old(self).run(cons(r, h)),
    {
        let board: Board = self.board;
        match &mut self.stage {
            PanicStage::First(b) => {
                b.answer(r);
                if let Next::Done(_) = b.next() {
                    let long: Blink = blink(board, 3, 300, 100);
                    assert(long.run(Seq::empty()) == blink_run(board, 3, 300, 100, Seq::empty()));
                    self.stage = PanicStage::Long(long);
                }
            },
            PanicStage::Long(b) => {
                b.answer(r);
                if let Next::Done(_) = b.next() {
                    let short: Blink = blink(board, 3, 100, 100);
                    assert(short.run(Seq::empty()) == blink_run(board, 3, 100, 100, Seq::empty()));
                    self.stage = PanicStage::Short(short);
                }
            },
            PanicStage::Short(b) => {
                b.answer(r);
                if let Next::Done(_) = b.next() {
                    self.stage = PanicStage::Pause;
                }
            },
            PanicStage::Pause => {
                self.stage = PanicStage::Done;
            },
            PanicStage::Done => {},
        }
    }
}

/// One round of the pattern that tells of a panic.
pub fn panic_round(board: Board) -> (m: PanicRound)
    ensures
        m.wf(),
        forall|h: Seq<u32>| #[trigger] m.run(h) == panic_round_run(board, h),
{
    let first: Blink = blink(board, 3, 100, 100);
    assert(first.run(Seq::empty()) == blink_run(board, 3, 100, 100, Seq::empty()));
    PanicRound { board, stage: PanicStage::First(first) }
}

} // verus!
