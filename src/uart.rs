//! Serial transceiver: line framing and divisor computation.
use vstd::prelude::*;
use vstd::string::StringSliceAdditionalSpecFns;

verus! {

/// Register block base of the first serial transceiver.
pub const UART0_BASE: usize = 0xFD890000;
/// Register block base of the second serial transceiver.
pub const UART1_BASE: usize = 0xFEB40000;
/// Register block base of the debug serial transceiver.
pub const UART2_BASE: usize = 0xFEB50000;
/// Register block base of the fourth serial transceiver.
pub const UART3_BASE: usize = 0xFEB60000;
/// Register block base of the fifth serial transceiver.
pub const UART4_BASE: usize = 0xFEB70000;

/// Input clock assumed for the baud rate divisor.
pub const UART_CLOCK: u32 = 24_000_000;

/// Bytes sent for `b`: each line feed is preceded by a carriage return.
pub open spec fn crlf(b: Seq<u8>) -> Seq<u8>
    decreases b.len(),
{
    if b.len() == 0 {
        Seq::empty()
    } else if b.last() == 10u8 {
        crlf(b.drop_last()) + seq![13u8, 10u8]
    } else {
        crlf(b.drop_last()).push(b.last())
    }
}

/// One serial transceiver, by the base of its register block.
pub struct Uart {
    base: usize,
}

impl Uart {
    pub closed spec fn base_spec(&self) -> usize {
        self.base
    }

    /// The transceiver whose registers start at `base`.
    pub fn new(base: usize) -> (r: Uart)
        ensures
            r.base_spec() == base,
    {
        Uart { base }
    }

    /// Base address of the register block.
    pub fn base(&self) -> (r: usize)
        ensures
            r == self.base_spec(),
    {
        self.base
    }

    /// Divisor latch value for `baudrate`: `UART_CLOCK / (16 * baudrate)`.
    pub fn baud_divisor(baudrate: u32) -> (r: u32)
        requires
            baudrate > 0,
        ensures
            r as int == UART_CLOCK as int / (16 * baudrate as int),
    {
        ((UART_CLOCK as u64) / (16 * (baudrate as u64))) as u32
    }

    /// The bytes to transmit for the text `s`, line feeds expanded to
    /// carriage return and line feed.
    pub fn line_bytes(s: &str) -> (r: Vec<u8>)
        ensures
            r@ == crlf(s.spec_bytes()),
    {
        let b = s.as_bytes();
        let mut out: Vec<u8> = Vec::new();
        let mut i: usize = 0;
        while i < b.len()
            invariant
                b@ == s.spec_bytes(),
                i <= b@.len(),
                out@ == crlf(b@.subrange(0, i as int)),
            decreases b@.len() - i,
        {
            let c = b[i];
            proof {
                let p = b@.subrange(0, i as int + 1);
                assert(p.drop_last() =~= b@.subrange(0, i as int));
                assert(p.last() == c);
            }
            if c == 10u8 {
                out.push(13u8);
            }
            out.push(c);
            i = i + 1;
        }
        proof {
            assert(b@.subrange(0, b@.len() as int) =~= b@);
        }
        out
    }
}

} // verus!
