//! The runtime core of a small stack-based virtual machine.
//!
//! Values are data: immutable records that live on a garbage-collected
//! [`datum::Heap`] and carry a [`sigil::Sigil`] as their enchantment. Code
//! is a sequence of [`spell::Instruction`]s, held as a [`spell::Spell`] in a
//! [`spell::Spells`] database. [`interpret::interpret_instruction`]
//! interprets one instruction of the active frame of an
//! [`interpret::CallStack`] and says what is to become of the call stack;
//! [`interpret::CallStack::apply`] does it.
//!
//! Every function of the crate is verified against its contract, and the
//! laws that relate the functions are proved: see the proof functions of
//! [`sigil`], [`datum::reach`], [`datum::handles`] and [`spell`].

pub mod datum;
pub mod interpret;
pub mod sigil;
pub mod spell;
