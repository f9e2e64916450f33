use vstd::prelude::*;

verus! {

/// The interrupt source number of the UART.
pub const INT_ID: u32 = 10;

/// The divisor latch value for the UART's baud rate.
pub const DIVISOR: u16 = 592;

/// An NS16550A UART at `base_address`.
pub struct Uart {
    base_address: u64,
}

/// The register writes, as (offset, value), that set the UART up: 8-bit words,
/// FIFO on, the received-data interrupt on, and the baud-rate divisor.
pub open spec fn init_writes() -> Seq<(u64, u8)> {
    seq![(3u64, 3u8), (2u64, 1u8), (1u64, 1u8), (3u64, 131u8), (0u64, 0x50u8), (1u64, 2u8), (3u64, 3u8)]
}

impl Uart {
    pub closed spec fn base(&self) -> u64 {
        self.base_address
    }

    pub fn new(base_address: u64) -> (r: Uart)
        ensures
            r.base() == base_address,
    {
        Uart { base_address }
    }

    pub fn base_address(&self) -> (r: u64)
        ensures
            r == self.base(),
    {
        self.base_address
    }

    /// The register writes of `init`, in order, as (offset from the base, value).
    pub fn init(&self) -> (r: Vec<(u64, u8)>)
        ensures
            r@ == init_writes(),
    {
        let lcr: u8 = (1 << 0) | (1 << 1);
        let divisor: u16 = DIVISOR;
        let divisor_least: u8 = (divisor & 0xff) as u8;
        let divisor_most: u8 = (divisor >> 8) as u8;
        let mut w: Vec<(u64, u8)> = Vec::new();
        w.push((3, lcr));
        w.push((2, 1 << 0));
        w.push((1, 1 << 0));
        w.push((3, lcr | 1 << 7));
        w.push((0, divisor_least));
        w.push((1, divisor_most));
        w.push((3, lcr));
        assert(lcr == 3 && (lcr | 1u8 << 7u8) == 131 && divisor_least == 0x50 && divisor_most == 2
            && (1u8 << 0u8) == 1) by (bit_vector)
            requires
                lcr == (1u8 << 0u8) | (1u8 << 1u8),
                divisor == 592,
                divisor_least == (divisor & 0xff) as u8,
                divisor_most == (divisor >> 8u16) as u8,
        ;
        assert(w@ =~= init_writes());
        w
    }

    /// Whether the line status register value `lsr` says a byte is waiting (Data Ready).
    pub fn data_ready(lsr: u8) -> (r: bool)
        ensures
            r == (lsr & 1 != 0),
    {
        lsr & 1 != 0
    }
}

} // verus!
