//! Starting the guest on core 1.
//!
//! The firmware parks core 1 in a loop that waits for an address to appear in its
//! spin table. What is put there is the address of a short piece of machine code,
//! the trampoline, which sets up the registers of EL2 and enters Linux at EL1.
use vstd::prelude::*;
use crate::linux_vm::LINUX_LOAD_ADDR;

verus! {

/// Where the trampoline lies.
pub const TRAMPOLINE_ADDR: u64 = 0x0010_0000;
/// Core 1's entry in the firmware's spin table.
pub const SPIN_CPU1: u64 = 0xE0;
/// EL1 runs AArch64, with stage-2 translation, set/way override, protected table walks
/// and all interrupts routed to EL2.
pub const CORE1_HCR: u64 = 0x8000_003F;
/// Return to EL1h with all interrupts masked.
pub const CORE1_SPSR: u64 = 0x3C5;

/// The low and the high half of a 64-bit word, as it lies in memory.
pub open spec fn halves(v: u64) -> Seq<u32> {
    seq![(v % 0x1_0000_0000) as u32, (v / 0x1_0000_0000) as u32]
}

/// The instructions, padded to a multiple of eight bytes.
pub open spec fn code() -> Seq<u32> {
    seq![
        0x580001C9u32,  // ldr x9,  the device tree's address
        0x580001EA,  // ldr x10, the kernel's address
        0x5800020B,  // ldr x11, HCR_EL2
        0x5800022C,  // ldr x12, SPSR_EL2
        0xAA0903E0,  // mov x0, x9
        0xAA1F03E1,  // mov x1, xzr
        0xAA1F03E2,  // mov x2, xzr
        0xAA1F03E3,  // mov x3, xzr
        0xD51C400C,  // msr spsr_el2, x12
        0xD51C402A,  // msr elr_el2, x10
        0xD51C110B,  // msr hcr_el2, x11
        0xD5033FDF,  // isb
        0xD69F03E0,  // eret
        0xD503201F,  // nop
    ]
}

/// The trampoline: the instructions and the four numbers that they load.
pub open spec fn trampoline_words(dtb_addr: u64) -> Seq<u32> {
    code() + halves(dtb_addr) + halves(LINUX_LOAD_ADDR as u64) + halves(CORE1_HCR) + halves(
        CORE1_SPSR,
    )
}

/// What has to be done to start the guest.
#[derive(Clone, Copy, PartialEq, Eq, Structural, Debug)]
pub enum LaunchOp {
    /// Write a word of the trampoline to an address.
    Word(u64, u32),
    /// Make the code at an address visible to the other cores.
    PublishCode(u64),
    /// Write an entry of the spin table: its address, and the address to go to.
    Entry(u64, u64),
    /// Make the entry at an address visible to the other cores, and wake them.
    PublishAndWake(u64),
}

/// The trampoline is written, word by word, and published; only then does core 1's
/// entry of the spin table get its address.
pub open spec fn launch_ops(dtb_addr: u64) -> Seq<LaunchOp> {
    let words = trampoline_words(dtb_addr);
    Seq::new(22, |k: int| LaunchOp::Word((TRAMPOLINE_ADDR + 4 * k) as u64, words[k])) + seq![
        LaunchOp::PublishCode(TRAMPOLINE_ADDR),
        LaunchOp::Entry(SPIN_CPU1, TRAMPOLINE_ADDR),
        LaunchOp::PublishAndWake(SPIN_CPU1),
    ]
}

fn get_trampoline_words(dtb_addr: u64) -> (words: [u32; 22])
    ensures
        words@ == trampoline_words(dtb_addr),
{
    let dtb: u64 = dtb_addr;
    let words: [u32; 22] = [
        0x580001C9, 0x580001EA, 0x5800020B, 0x5800022C,
        0xAA0903E0, 0xAA1F03E1, 0xAA1F03E2, 0xAA1F03E3,
        0xD51C400C, 0xD51C402A, 0xD51C110B,
        0xD5033FDF, 0xD69F03E0, 0xD503201F,
        (dtb % 0x1_0000_0000) as u32, (dtb / 0x1_0000_0000) as u32,
        LINUX_LOAD_ADDR as u32, 0,
        (CORE1_HCR % 0x1_0000_0000) as u32, (CORE1_HCR / 0x1_0000_0000) as u32,
        (CORE1_SPSR % 0x1_0000_0000) as u32, (CORE1_SPSR / 0x1_0000_0000) as u32,
    ];
    assert(words@ =~= trampoline_words(dtb));
    words
}

/// What has to be done, in this order, to start Linux on core 1, given where its
/// device tree lies.
pub fn launch_linux_on_core1(dtb_addr: usize) -> (ops: Vec<LaunchOp>)
    ensures
        ops@ == launch_ops(dtb_addr as u64),
{
    let words: [u32; 22] = get_trampoline_words(dtb_addr as u64);
    let mut ops: Vec<LaunchOp> = Vec::new();
    let mut k: usize = 0;
    while k < 22
        invariant
            k <= 22,
            words@ == trampoline_words(dtb_addr as u64),
            ops@ == launch_ops(dtb_addr as u64).take(k as int),
        decreases 22 - k,
    {
        ops.push(LaunchOp::Word(TRAMPOLINE_ADDR + 4 * k as u64, words[k]));
        k = k + 1;
        assert(ops@ =~= launch_ops(dtb_addr as u64).take(k as int));
    }
    ops.push(LaunchOp::PublishCode(TRAMPOLINE_ADDR));
    ops.push(LaunchOp::Entry(SPIN_CPU1, TRAMPOLINE_ADDR));
    ops.push(LaunchOp::PublishAndWake(SPIN_CPU1));
    assert(ops@ =~= launch_ops(dtb_addr as u64));
    ops
}

/// Core 1's entry of the spin table is written once, after the whole trampoline was
/// written and published.
pub proof fn lemma_entry_comes_last(dtb_addr: u64, i: int)
    requires
        0 <= i < launch_ops(dtb_addr).len(),
        launch_ops(dtb_addr)[i] is Entry,
    ensures
        launch_ops(dtb_addr)[i] == LaunchOp::Entry(0xE0, 0x0010_0000),
        launch_ops(dtb_addr).len() == i + 2,
        launch_ops(dtb_addr)[i + 1] == LaunchOp::PublishAndWake(0xE0),
        forall|k: int|
            0 <= k < 22 ==> k < i && #[trigger] launch_ops(dtb_addr)[k] == LaunchOp::Word(
                (0x0010_0000 + 4 * k) as u64,
                trampoline_words(dtb_addr)[k],
            ),
        launch_ops(dtb_addr)[i - 1] == LaunchOp::PublishCode(0x0010_0000),
{
}

// ── What the trampoline does ───────────────────────────────────────────────

/// The registers that the trampoline touches.
pub struct Cpu {
    pub x: Seq<u64>,
    pub hcr_el2: u64,
    pub spsr_el2: u64,
    pub elr_el2: u64,
}

/// The 64-bit number at a byte offset.
pub open spec fn literal(words: Seq<u32>, offset: int) -> u64 {
    (words[offset / 4] + 0x1_0000_0000 * words[offset / 4 + 1]) as u64
}

/// Register `n`, where 31 is the zero register.
pub open spec fn reg(cpu: Cpu, n: int) -> u64 {
    if n == 31 {
        0
    } else {
        cpu.x[n]
    }
}

/// Executes the instruction at word `i`. `None` for one that is not known here.
pub open spec fn executed(words: Seq<u32>, i: int, cpu: Cpu) -> Option<Cpu> {
    let w = words[i];
    let rt = (w % 32) as int;
    if w / 0x100_0000 == 0x58 {
        // ldr xt, literal: a 19-bit number of words from the instruction on
        Some(
            Cpu { x: cpu.x.update(rt, literal(words, 4 * i + 4 * (w / 32 % 0x8_0000))), ..cpu },
        )
    } else if w / 0x20_0000 == 0x550 && w / 32 % 0x800 == 0x1F {
        // mov xt, xm
        Some(Cpu { x: cpu.x.update(rt, reg(cpu, (w / 0x1_0000 % 32) as int)), ..cpu })
    } else if w - w % 32 == 0xD51C_4000 {
        Some(Cpu { spsr_el2: reg(cpu, rt), ..cpu })
    } else if w - w % 32 == 0xD51C_4020 {
        Some(Cpu { elr_el2: reg(cpu, rt), ..cpu })
    } else if w - w % 32 == 0xD51C_1100 {
        Some(Cpu { hcr_el2: reg(cpu, rt), ..cpu })
    } else if w == 0xD503_3FDF {
        // isb
        Some(cpu)
    } else {
        None
    }
}

/// Executes from word `i` on until `eret`, at most `n` instructions.
pub open spec fn until_eret(words: Seq<u32>, i: int, n: nat, cpu: Cpu) -> Option<Cpu>
    decreases n,
{
    if words[i] == 0xD69F_03E0 {
        Some(cpu)
    } else if n == 0 {
        None
    } else {
        match executed(words, i, cpu) {
            Some(next) => until_eret(words, i + 1, (n - 1) as nat, next),
            None => None,
        }
    }
}

proof fn lemma_halves(v: u64)
    ensures
        (v % 0x1_0000_0000) as u32 + 0x1_0000_0000 * ((v / 0x1_0000_0000) as u32) == v,
{
}

/// The trampoline's loads reach their numbers: it leaves EL2 for the kernel's address
/// at EL1, with the device tree's address in x0 and zero in x1, x2 and x3.
pub proof fn lemma_trampoline_enters_linux(dtb_addr: u64, cpu: Cpu)
    requires
        cpu.x.len() == 31,
    ensures
        ({
            let end = until_eret(trampoline_words(dtb_addr), 0, 12, cpu);
            &&& end matches Some(c)
            &&& c.hcr_el2 == 0x8000_003F
            &&& c.spsr_el2 == 0x3C5
            &&& c.elr_el2 == 0x0040_0000
            &&& c.x[0] == dtb_addr
            &&& c.x[1] == 0 && c.x[2] == 0 && c.x[3] == 0
        }),
{
    let words = trampoline_words(dtb_addr);
    lemma_halves(dtb_addr);
    assert(literal(words, 56) == dtb_addr);
    assert(literal(words, 64) == LINUX_LOAD_ADDR);
    assert(literal(words, 72) == CORE1_HCR);
    assert(literal(words, 80) == CORE1_SPSR);
    reveal_with_fuel(until_eret, 13);
}

} // verus!
