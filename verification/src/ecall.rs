use vstd::prelude::*;
use crate::cpu::TrapFrame;

verus! {

/// The environment calls the kernel knows, by the number in register a7.
#[derive(Clone, Copy, Debug, PartialEq, Eq, Structural)]
pub enum Ecall {
    Exit,
    Test,
    Unknown(u64),
}

pub open spec fn ecall_of(number: u64) -> Ecall {
    if number == 0 {
        Ecall::Exit
    } else if number == 1 {
        Ecall::Test
    } else {
        Ecall::Unknown(number)
    }
}

/// Decodes the environment call of the trapped process (its number is in
/// register a7, x17) and gives the address to resume at: the next instruction.
pub fn do_ecall(mepc: u64, frame: &TrapFrame) -> (r: (u64, Ecall))
    requires
        mepc + 4 <= u64::MAX,
    ensures
        r.0 == mepc + 4,
        r.1 == ecall_of(frame.regs@[17]),
{
    let ecall_number = frame.regs[17];
    let call = match ecall_number {
        0 => Ecall::Exit,
        1 => Ecall::Test,
        _ => Ecall::Unknown(ecall_number),
    };
    (mepc + 4, call)
}

} // verus!
