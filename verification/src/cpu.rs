use vstd::prelude::*;

verus! {

/// Address-translation modes of the `satp` register.
#[derive(Clone, Copy, Debug, PartialEq, Eq, Structural)]
pub enum SatpMode {
    Off,
    Sv39,
    Sv48,
}

impl SatpMode {
    /// The encoding of the mode in the MODE field of `satp`.
    pub open spec fn spec_value(self) -> u64 {
        match self {
            SatpMode::Off => 0,
            SatpMode::Sv39 => 8,
            SatpMode::Sv48 => 9,
        }
    }

    pub fn value(self) -> (r: u64)
        ensures
            r == self.spec_value(),
    {
        match self {
            SatpMode::Off => 0,
            SatpMode::Sv39 => 8,
            SatpMode::Sv48 => 9,
        }
    }
}

/// The value of `satp` selecting `mode`, address-space id `asid` and the root table at `addr`.
pub open spec fn satp_value(mode: u64, asid: u64, addr: u64) -> u64 {
    (mode << 60u64) | ((asid & 0xfff) << 44u64) | ((addr >> 12u64) & 0xff_ffff_ffff)
}

pub fn build_satp(mode: SatpMode, asid: u64, addr: u64) -> (r: u64)
    ensures
        r == satp_value(mode.spec_value(), asid, addr),
{
    (mode.value() << 60) | ((asid & 0xfff) << 44) | ((addr >> 12) & 0xff_ffff_ffff)
}

/// The registers of a hart saved on a trap.
#[derive(Clone, Copy)]
pub struct TrapFrame {
    /// General purpose registers.
    pub regs: [u64; 32],
    /// Floating point registers.
    pub fregs: [u64; 32],
    pub satp: u64,
    /// Address of the trap stack.
    pub trap_stack: u64,
    /// Hardware thread id.
    pub hartid: u64,
}

impl TrapFrame {
    /// A frame with every register zero and no trap stack.
    pub fn zero() -> (r: TrapFrame)
        ensures
            forall|i: int| 0 <= i < 32 ==> #[trigger] r.regs@[i] == 0 && r.fregs@[i] == 0,
            r.satp == 0,
            r.trap_stack == 0,
            r.hartid == 0,
    {
        TrapFrame { regs: [0; 32], fregs: [0; 32], satp: 0, trap_stack: 0, hartid: 0 }
    }
}

/// The fields of a `satp` value read back what built it: the mode, the low 12
/// bits of the address-space id and the 44-bit page number of the root table.
pub proof fn lemma_satp_fields(mode: SatpMode, asid: u64, addr: u64)
    ensures
        satp_value(mode.spec_value(), asid, addr) >> 60u64 == mode.spec_value(),
        (satp_value(mode.spec_value(), asid, addr) >> 44u64) & 0xffff == asid & 0xfff,
        satp_value(mode.spec_value(), asid, addr) & 0xfff_ffff_ffff == (addr >> 12u64) & 0xff_ffff_ffff,
{
    let m = mode.spec_value();
    let s = satp_value(m, asid, addr);
    assert(s >> 60u64 == m && (s >> 44u64) & 0xffff == asid & 0xfff && s & 0xfff_ffff_ffff == (addr
        >> 12u64) & 0xff_ffff_ffff) by (bit_vector)
        requires
            m <= 9,
            s == (m << 60u64) | ((asid & 0xfff) << 44u64) | ((addr >> 12u64) & 0xff_ffff_ffff),
    ;
}

} // verus!
