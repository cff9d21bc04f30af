//! The instruction set.

use crate::sigil::Sigil;
use vstd::prelude::*;

verus! {

/// A local variable indexes into the array of local variables on the stack
/// frame.
#[derive(Clone, Copy, Debug, PartialEq, Eq, Structural, Hash)]
pub struct Local(pub u32);

/// An instruction is the smallest unit of executable code.
#[derive(Clone, Debug)]
pub enum Instruction {
    /// Copy the datum from one variable into another.
    Copy { from: Local, to: Local },
    /// Invoke a spell using static dispatch.
    InvokeStatic { result: Local, spellbook: Sigil, spell: Sigil, arguments: Vec<Local> },
    /// Invoke a spell using dynamic dispatch on the enchantment of the
    /// receiver.
    InvokeDynamic { result: Local, spell: Sigil, receiver: Local, arguments: Vec<Local> },
    /// Return to the caller, giving it a datum.
    Return { result: Local },
}

/// Whether every local variable in `locals` is one of the first `slots`.
pub open spec fn all_within(locals: Seq<Local>, slots: nat) -> bool {
    forall|k: int| 0 <= k < locals.len() ==> (#[trigger] locals[k]).0 < slots
}

impl Instruction {
    /// Whether every local variable that the instruction reads or writes
    /// when it is interpreted is one of the first `slots`.
    pub open spec fn touches_within(&self, slots: nat) -> bool {
        match *self {
            Instruction::Copy { from, to } => from.0 < slots && to.0 < slots,
            Instruction::InvokeStatic { arguments, .. } => all_within(arguments@, slots),
            Instruction::InvokeDynamic { receiver, arguments, .. } => receiver.0 < slots
                && all_within(arguments@, slots),
            Instruction::Return { result } => result.0 < slots,
        }
    }

    /// Whether every local variable that the instruction names, the one for
    /// the result of a call included, is one of the first `slots`.
    pub open spec fn fits(&self, slots: nat) -> bool {
        &&& self.touches_within(slots)
        &&& match *self {
            Instruction::InvokeStatic { result, .. } => result.0 < slots,
            Instruction::InvokeDynamic { result, .. } => result.0 < slots,
            _ => true,
        }
    }

    /// The number of handles that interpreting the instruction creates.
    pub open spec fn handles(&self) -> nat {
        match *self {
            Instruction::Copy { .. } => 1,
            Instruction::InvokeStatic { arguments, .. } => arguments@.len(),
            Instruction::InvokeDynamic { arguments, .. } => arguments@.len() + 1,
            Instruction::Return { .. } => 1,
        }
    }
}

/// Whether every local variable in `locals` is one of the first `slots`.
fn are_within(locals: &Vec<Local>, slots: usize) -> (within: bool)
    ensures
        within == all_within(locals@, slots as nat),
{
    let mut k: usize = 0;
    while k < locals.len()
        invariant
            k <= locals@.len(),
            forall|j: int| 0 <= j < k ==> (#[trigger] locals@[j]).0 < slots,
        decreases locals@.len() - k,
    {
        if locals[k].0 as usize >= slots {
            return false;
        }
        k += 1;
    }
    true
}

impl Local {
    /// Whether the local variable is one of the first `slots`.
    pub fn is_within(&self, slots: usize) -> (within: bool)
        ensures
            within == (self.0 < slots),
    {
        (self.0 as usize) < slots
    }
}

impl Instruction {
    /// Whether the instruction is a return.
    pub fn is_return(&self) -> (is_return: bool)
        ensures
            is_return == (*self is Return),
    {
        match self {
            Instruction::Return { .. } => true,
            _ => false,
        }
    }

    /// Whether every local variable that the instruction names is one of the
    /// first `slots`: see [`Instruction::fits`].
    pub fn fits_in(&self, slots: usize) -> (fits: bool)
        ensures
            fits == self.fits(slots as nat),
    {
        match self {
            Instruction::Copy { from, to } => from.is_within(slots) && to.is_within(slots),
            Instruction::InvokeStatic { result, arguments, .. } => result.is_within(slots)
                && are_within(arguments, slots),
            Instruction::InvokeDynamic { result, receiver, arguments, .. } => result.is_within(
                slots,
            ) && receiver.is_within(slots) && are_within(arguments, slots),
            Instruction::Return { result } => result.is_within(slots),
        }
    }
}

} // verus!
