//! The operand word of a futex wake-op request: which operation to apply
//! to the second futex word and which comparison decides whether its
//! waiters are woken too.
use vstd::prelude::*;

verus! {

/// The operation a wake-op request applies to the second futex word.
#[derive(PartialEq, Eq, Structural, Clone, Copy, Debug)]
pub enum FutexWakeOp {
    /// `uaddr2 = oparg;`
    Store,
    /// `uaddr2 += oparg;`
    Add,
    /// `uaddr2 |= oparg;`
    Or,
    /// `uaddr2 &= !oparg;`
    AndN,
    /// `uaddr2 ^= oparg;`
    XOr,
    /// `uaddr2 = 1 << oparg;`
    SetShift,
    /// `uaddr2 += 1 << oparg;`
    AddShift,
    /// `uaddr2 |= 1 << oparg;`
    OrShift,
    /// `uaddr2 &= !(1 << oparg);`
    AndNShift,
    /// `uaddr2 ^= 1 << oparg;`
    XOrShift,
}

/// The comparison of the second futex word's old value with `cmparg`.
#[derive(PartialEq, Eq, Structural, Clone, Copy, Debug)]
pub enum FutexWakeOpCmp {
    /// `oldval == cmparg`
    Eq,
    /// `oldval != cmparg`
    Ne,
    /// `oldval < cmparg`
    Lt,
    /// `oldval <= cmparg`
    Le,
    /// `oldval > cmparg`
    Gt,
    /// `oldval >= cmparg`
    Ge,
}

/// An operand or comparison argument does not fit in its 12 bits.
#[derive(PartialEq, Eq, Structural, Clone, Copy, Debug)]
pub struct ArgumentTooLarge;

/// The kernel's code of an operation: the plain operations are `0..=4`,
/// and the shifted ones carry the shift flag `8`.
pub open spec fn op_code(op: FutexWakeOp) -> u32 {
    match op {
        FutexWakeOp::Store => 0,
        FutexWakeOp::Add => 1,
        FutexWakeOp::Or => 2,
        FutexWakeOp::AndN => 3,
        FutexWakeOp::XOr => 4,
        FutexWakeOp::SetShift => 8,
        FutexWakeOp::AddShift => 9,
        FutexWakeOp::OrShift => 10,
        FutexWakeOp::AndNShift => 11,
        FutexWakeOp::XOrShift => 12,
    }
}

/// The kernel's code of a comparison.
pub open spec fn cmp_code(cmp: FutexWakeOpCmp) -> u32 {
    match cmp {
        FutexWakeOpCmp::Eq => 0,
        FutexWakeOpCmp::Ne => 1,
        FutexWakeOpCmp::Lt => 2,
        FutexWakeOpCmp::Le => 3,
        FutexWakeOpCmp::Gt => 4,
        FutexWakeOpCmp::Ge => 5,
    }
}

impl FutexWakeOp {
    pub fn code(self) -> (r: u32)
        ensures
            r == op_code(self),
    {
        match self {
            FutexWakeOp::Store => 0,
            FutexWakeOp::Add => 1,
            FutexWakeOp::Or => 2,
            FutexWakeOp::AndN => 3,
            FutexWakeOp::XOr => 4,
            FutexWakeOp::SetShift => 8,
            FutexWakeOp::AddShift => 9,
            FutexWakeOp::OrShift => 10,
            FutexWakeOp::AndNShift => 11,
            FutexWakeOp::XOrShift => 12,
        }
    }
}

impl FutexWakeOpCmp {
    pub fn code(self) -> (r: u32)
        ensures
            r == cmp_code(self),
    {
        match self {
            FutexWakeOpCmp::Eq => 0,
            FutexWakeOpCmp::Ne => 1,
            FutexWakeOpCmp::Lt => 2,
            FutexWakeOpCmp::Le => 3,
            FutexWakeOpCmp::Gt => 4,
            FutexWakeOpCmp::Ge => 5,
        }
    }
}

/// Packs a wake-op operand word: the operation in bits 28..32, the
/// comparison in bits 24..28, `oparg` in bits 12..24 and `cmparg` in bits
/// 0..12. Arguments of 12 bits or more are refused.
pub fn wake_op_word(op: FutexWakeOp, cmp: FutexWakeOpCmp, oparg: u16, cmparg: u16) -> (r: Result<
    u32,
    ArgumentTooLarge,
>)
    ensures
        oparg >= 4096 || cmparg >= 4096 ==> r == Err::<u32, ArgumentTooLarge>(ArgumentTooLarge),
        oparg < 4096 && cmparg < 4096 ==> r == Ok::<u32, ArgumentTooLarge>(
            (op_code(op) * 0x1000_0000 + cmp_code(cmp) * 0x100_0000 + oparg * 0x1000 + cmparg) as u32,
        ),
{
    if oparg >= 4096 || cmparg >= 4096 {
        return Err(ArgumentTooLarge);
    }
    Ok(op.code() * 0x1000_0000 + cmp.code() * 0x100_0000 + (oparg as u32) * 0x1000 + cmparg as u32)
}

} // verus!
