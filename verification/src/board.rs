//! The boards that the kernel runs on.
use vstd::prelude::*;

verus! {

#[derive(Clone, Copy, PartialEq, Eq, Structural, Debug)]
pub enum Board {
    /// Raspberry Pi 3 (BCM2837), also QEMU's.
    Rpi3,
    /// Raspberry Pi 4 (BCM2711).
    Rpi4,
}

/// Where the peripherals start.
pub open spec fn peripheral_base(board: Board) -> u64 {
    match board {
        Board::Rpi3 => 0x3F00_0000,
        Board::Rpi4 => 0xFE00_0000,
    }
}

impl Board {
    /// Where the peripherals start.
    pub fn peripherals(self) -> (base: u64)
        ensures
            base == peripheral_base(self),
    {
        match self {
            Board::Rpi3 => 0x3F00_0000,
            Board::Rpi4 => 0xFE00_0000,
        }
    }
}

} // verus!
