use vstd::prelude::*;

verus! {

/// Base of the interrupt priority registers, one 32-bit register per source.
pub const PRIORITY_REG: u64 = 0x0c00_0000;

pub const PENDING_REG: u64 = 0x0c00_1000;

pub const ENABLE_REG: u64 = 0x0c00_2000;

pub const THRESHOLD_REG: u64 = 0x0c20_0000;

pub const CLAIM_REG: u64 = 0x0c20_0004;

pub const COMPLETE_REG: u64 = 0x0c20_0004;

/// The enable register after enabling source `id` in `current`.
pub fn enable(current: u32, id: u32) -> (r: u32)
    requires
        id < 32,
    ensures
        r == current | (1u32 << id),
{
    current | (1 << id)
}

/// Whether the pending register value `pending` shows source `id` pending: the
/// bit tested is `id << 1`.
pub fn has_pending(id: u32, pending: u32) -> (r: bool)
    ensures
        r == ((id << 1u32) & pending != 0),
{
    (id << 1) & pending != 0
}

/// Address of the priority register of source `id`.
pub fn priority_register(id: u32) -> (r: u64)
    ensures
        r == PRIORITY_REG + 4 * id,
{
    PRIORITY_REG + 4 * (id as u64)
}

/// The value written for priority `priority`: its low three bits.
pub fn set_priority(priority: u8) -> (r: u32)
    ensures
        r == (priority as u32) & 7,
{
    (priority as u32) & 0x7
}

/// The value written for threshold `threshold`: its low three bits.
pub fn set_threshold(threshold: u8) -> (r: u32)
    ensures
        r == (threshold as u32) & 7,
{
    (threshold as u32) & 0x7
}

/// The interrupt that the claim register value `claim_no` names; 0 names none.
pub fn next(claim_no: u32) -> (r: Option<u32>)
    ensures
        r == if claim_no == 0 {
            None
        } else {
            Some(claim_no)
        },
{
    if claim_no == 0 {
        return None;
    }
    Some(claim_no)
}

} // verus!
