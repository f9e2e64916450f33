use vstd::prelude::*;

pub mod cpu;
pub mod ecall;
pub mod plic;
pub mod sched;
pub mod trap;
pub mod uart;
pub mod page;
pub mod kmem;
pub mod mmu;
pub mod process;
pub mod table_laws;

verus! {

} // verus!
