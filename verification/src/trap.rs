use vstd::prelude::*;

verus! {

/// What the machine-mode trap handler does about a trap.
#[derive(Clone, Copy, Debug, PartialEq, Eq, Structural)]
pub enum TrapAction {
    /// Asynchronous 3: report it.
    MachineSoftwareInterrupt,
    /// Asynchronous 7: arm the timer for the next tick.
    MachineTimerInterrupt,
    /// Asynchronous 11: report it.
    MachineExternalInterrupt,
    /// Any other asynchronous cause: stop the kernel.
    UnhandledAsync,
    /// Synchronous 2: report it.
    IllegalInstruction,
    /// Synchronous 8: report it and step over the `ecall`.
    UserEcall,
    /// Synchronous 9: report it and step over the `ecall`.
    SupervisorEcall,
    /// Synchronous 11: stop the kernel.
    MachineEcall,
    /// Synchronous 12: report it and step over the instruction.
    InstructionPageFault,
    /// Synchronous 13: report it and step over the instruction.
    LoadPageFault,
    /// Synchronous 15: report it and step over the instruction.
    StorePageFault,
    /// Any other synchronous cause: stop the kernel.
    UnhandledSync,
}

/// The exception code of `mcause`.
pub open spec fn cause_code(cause: u64) -> u64 {
    cause & 0xfff
}

/// The interrupt bit of `mcause`.
pub open spec fn is_async(cause: u64) -> bool {
    (cause >> 63u64) & 1 == 1
}

/// The action for a trap with cause register `cause`.
pub open spec fn action_of(cause: u64) -> TrapAction {
    let code = cause_code(cause);
    if is_async(cause) {
        if code == 3 {
            TrapAction::MachineSoftwareInterrupt
        } else if code == 7 {
            TrapAction::MachineTimerInterrupt
        } else if code == 11 {
            TrapAction::MachineExternalInterrupt
        } else {
            TrapAction::UnhandledAsync
        }
    } else {
        if code == 2 {
            TrapAction::IllegalInstruction
        } else if code == 8 {
            TrapAction::UserEcall
        } else if code == 9 {
            TrapAction::SupervisorEcall
        } else if code == 11 {
            TrapAction::MachineEcall
        } else if code == 12 {
            TrapAction::InstructionPageFault
        } else if code == 13 {
            TrapAction::LoadPageFault
        } else if code == 15 {
            TrapAction::StorePageFault
        } else {
            TrapAction::UnhandledSync
        }
    }
}

/// The action steps over the trapping instruction.
pub open spec fn skips_instruction(a: TrapAction) -> bool {
    a == TrapAction::UserEcall || a == TrapAction::SupervisorEcall
        || a == TrapAction::InstructionPageFault || a == TrapAction::LoadPageFault
        || a == TrapAction::StorePageFault
}

/// What the handler does for the synchronous trap with exception code `c` at
/// `epc`, case by case: illegal instructions are reported where they are; the
/// three `ecall`s and the three page faults are reported and stepped over, except
/// an `ecall` from machine mode, which stops the kernel where it is, as does
/// every other code.
pub open spec fn handled_sync(c: u64, epc: u64, r: (u64, TrapAction)) -> bool {
    &&& c == 2 ==> r == (epc, TrapAction::IllegalInstruction)
    &&& c == 8 ==> r == ((epc + 4) as u64, TrapAction::UserEcall)
    &&& c == 9 ==> r == ((epc + 4) as u64, TrapAction::SupervisorEcall)
    &&& c == 11 ==> r == (epc, TrapAction::MachineEcall)
    &&& c == 12 ==> r == ((epc + 4) as u64, TrapAction::InstructionPageFault)
    &&& c == 13 ==> r == ((epc + 4) as u64, TrapAction::LoadPageFault)
    &&& c == 15 ==> r == ((epc + 4) as u64, TrapAction::StorePageFault)
    &&& !(c == 2 || c == 8 || c == 9 || c == 11 || c == 12 || c == 13 || c == 15) ==> r == (
        epc,
        TrapAction::UnhandledSync,
    )
}

/// What the handler does for the interrupt with code `c` at `epc`: software,
/// timer and external interrupts are handled, any other stops the kernel; the
/// interrupted instruction is resumed in every case.
pub open spec fn handled_async(c: u64, epc: u64, r: (u64, TrapAction)) -> bool {
    &&& c == 3 ==> r == (epc, TrapAction::MachineSoftwareInterrupt)
    &&& c == 7 ==> r == (epc, TrapAction::MachineTimerInterrupt)
    &&& c == 11 ==> r == (epc, TrapAction::MachineExternalInterrupt)
    &&& !(c == 3 || c == 7 || c == 11) ==> r == (epc, TrapAction::UnhandledAsync)
}

/// The trap table: for every cause, the action and the resume address are those
/// the table of exception and interrupt codes gives.
pub proof fn lemma_trap_codes(epc: u64, cause: u64)
    requires
        skips_instruction(action_of(cause)) ==> epc + 4 <= u64::MAX,
    ensures
        ({
            let r = (
                if skips_instruction(action_of(cause)) {
                    (epc + 4) as u64
                } else {
                    epc
                },
                action_of(cause),
            );
            &&& (cause >> 63u64) & 1 == 0 ==> handled_sync(cause & 0xfff, epc, r)
            &&& (cause >> 63u64) & 1 == 1 ==> handled_async(cause & 0xfff, epc, r)
        }),
{
}

/// Decides what to do about a trap at `epc` with cause `cause`, and where to
/// resume: after the trapping instruction for `ecall`s and page faults, at it otherwise.
pub fn trap_action(epc: u64, cause: u64) -> (r: (u64, TrapAction))
    requires
        skips_instruction(action_of(cause)) ==> epc + 4 <= u64::MAX,
    ensures
        r.1 == action_of(cause),
        r.0 == if skips_instruction(action_of(cause)) {
            epc + 4
        } else {
            epc as int
        },
        (cause >> 63u64) & 1 == 0 ==> handled_sync(cause & 0xfff, epc, r),
        (cause >> 63u64) & 1 == 1 ==> handled_async(cause & 0xfff, epc, r),
{
    proof {
        lemma_trap_codes(epc, cause);
    }
    let cause_code = cause & 0xfff;
    let mut return_pc = epc;
    let is_async = (cause >> 63) & 1 == 1;
    let action;
    if is_async {
        action = match cause_code {
            3 => TrapAction::MachineSoftwareInterrupt,
            7 => TrapAction::MachineTimerInterrupt,
            11 => TrapAction::MachineExternalInterrupt,
            _ => TrapAction::UnhandledAsync,
        };
    } else {
        action = match cause_code {
            2 => TrapAction::IllegalInstruction,
            8 => {
                return_pc += 4;
                TrapAction::UserEcall
            },
            9 => {
                return_pc += 4;
                TrapAction::SupervisorEcall
            },
            11 => TrapAction::MachineEcall,
            12 => {
                return_pc += 4;
                TrapAction::InstructionPageFault
            },
            13 => {
                return_pc += 4;
                TrapAction::LoadPageFault
            },
            15 => {
                return_pc += 4;
                TrapAction::StorePageFault
            },
            _ => TrapAction::UnhandledSync,
        };
    }
    (return_pc, action)
}

/// Machine timer ticks between two timer interrupts: one second on QEMU.
pub const TIMER_INTERVAL: u64 = 10_000_000;

/// The compare value that arms the timer for the next tick, given the current
/// time `mtime`.
pub fn next_timer(mtime: u64) -> (r: u64)
    requires
        mtime + TIMER_INTERVAL <= u64::MAX,
    ensures
        r == mtime + TIMER_INTERVAL,
{
    mtime + TIMER_INTERVAL
}

} // verus!
