//! The register window: ordered 32-bit access to a fixed register block.
use vstd::prelude::*;

verus! {

/// One access made through a register window, in the order it was made.
/// A read records the value the hardware handed back.
#[derive(Debug, Clone, Copy, PartialEq, Eq, Structural)]
pub enum Access {
    Read(usize, u32),
    Write(usize, u32),
}

/// Ordered, uncached 32-bit access to a block of hardware registers,
/// addressed by byte offset from the block's base.
///
/// An implementation performs each access exactly once and in program order.
/// Nothing is assumed of the values that `read` returns: the drivers are
/// verified for every value the hardware might produce.
pub trait RegisterWindow {
    fn read(&mut self, offset: usize) -> u32;

    fn write(&mut self, offset: usize, value: u32);
}

} // verus!
