//! Spells, their identity, and the database that holds them.

pub mod code;

pub use self::code::Instruction;
pub use self::code::Local;

use crate::sigil::Sigil;
use std::collections::HashMap;
use vstd::prelude::*;

verus! {

/// A spell is identified by the name of the spellbook it is defined in, the
/// name of the spell, and the arity of the spell.
#[derive(Clone, Copy, Debug, PartialEq, Eq, Structural, Hash)]
pub struct SpellId {
    pub spellbook: Sigil,
    pub spell: Sigil,
    pub arity: usize,
}

/// A spell is a sequence of instructions that can be executed using a single
/// stack frame.
#[derive(Debug)]
pub struct Spell {
    /// The sequence of instructions that are to be interpreted when the spell
    /// is invoked.
    pub instructions: Vec<Instruction>,
    /// How many local variable slots must be allocated when the spell is
    /// invoked.
    ///
    /// For _n_ the arity of the spell, the first _n_ local variables are
    /// filled with the values of the arguments when the spell is invoked.
    pub local_variables: usize,
}

/// A spell database is a collection of spells.
///
/// Its model is the map from the identity of each spell to the spell.
#[derive(Debug)]
pub struct Spells {
    /// The spells, each under the key of its identity.
    spells: HashMap<u128, Spell>,
    /// Whether every spell that was inserted is valid.
    valid: bool,
}

/// This error is returned when attempting to define a spell that was already
/// defined.
#[derive(Debug)]
pub struct RedefinitionError;

/// Whether the instructions can run in a frame of `slots` local variables
/// without leaving either: there is a first instruction, every instruction
/// names local variables of the frame only, and every instruction but a
/// return is followed by another.
pub open spec fn valid_code(instructions: Seq<Instruction>, slots: nat) -> bool {
    &&& instructions.len() > 0
    &&& forall|i: int|
        0 <= i < instructions.len() ==> {
            &&& (#[trigger] instructions[i]).fits(slots)
            &&& (instructions[i] is Return || i + 1 < instructions.len())
        }
}

/// Whether every spell of a database is valid for the arity under which it
/// is filed.
pub open spec fn valid_spells(spells: Map<SpellId, Spell>) -> bool {
    forall|id: SpellId| spells.contains_key(id) ==> (#[trigger] spells[id]).valid(id.arity as nat)
}

impl Spell {
    /// Whether the spell can be invoked with `arity` arguments: its frame
    /// has room for them, and its code is valid for its frame.
    pub open spec fn valid(&self, arity: nat) -> bool {
        &&& arity <= self.local_variables
        &&& valid_code(self.instructions@, self.local_variables as nat)
    }

    /// Check that the spell can be invoked with `arity` arguments: see
    /// [`Spell::valid`].
    pub fn is_valid(&self, arity: usize) -> (valid: bool)
        ensures
            valid == self.valid(arity as nat),
    {
        arity <= self.local_variables && is_valid_code(
            self.instructions.as_slice(),
            self.local_variables,
        )
    }
}

/// Check that instructions can run in a frame of `slots` local variables:
/// see [`valid_code`].
pub fn is_valid_code(instructions: &[Instruction], slots: usize) -> (valid: bool)
    ensures
        valid == valid_code(instructions@, slots as nat),
{
    if instructions.len() == 0 {
        return false;
    }
    let mut i: usize = 0;
    while i < instructions.len()
        invariant
            i <= instructions@.len(),
            forall|j: int|
                0 <= j < i ==> {
                    &&& (#[trigger] instructions@[j]).fits(slots as nat)
                    &&& (instructions@[j] is Return || j + 1 < instructions@.len())
                },
        decreases instructions@.len() - i,
    {
        let instruction = &instructions[i];
        if !instruction.fits_in(slots) {
            return false;
        }
        if !instruction.is_return() && i + 1 == instructions.len() {
            return false;
        }
        i += 1;
    }
    true
}

/// The key under which the database files a spell: the three parts of the
/// identity side by side in one number.
pub open spec fn key_of(id: SpellId) -> u128 {
    (id.spellbook.0 * 0x1_0000_0000_0000_0000_0000_0000 + id.spell.0 * 0x1_0000_0000_0000_0000
        + id.arity) as u128
}

/// Different identities have different keys.
pub proof fn lemma_key_of_injective(a: SpellId, b: SpellId)
    requires
        key_of(a) == key_of(b),
    ensures
        a == b,
{
    let high: int = 0x1_0000_0000_0000_0000_0000_0000;
    let low: int = 0x1_0000_0000_0000_0000;
    let a_low = a.spell.0 * low + a.arity;
    let b_low = b.spell.0 * low + b.arity;
    assert(0 <= a_low < high && 0 <= b_low < high);
    assert(key_of(a) == a.spellbook.0 * high + a_low);
    assert(key_of(b) == b.spellbook.0 * high + b_low);
    if a.spellbook.0 < b.spellbook.0 {
        assert(a.spellbook.0 * high + high <= b.spellbook.0 * high);
    } else if b.spellbook.0 < a.spellbook.0 {
        assert(b.spellbook.0 * high + high <= a.spellbook.0 * high);
    }
    assert(a_low == b_low);
    if a.spell.0 < b.spell.0 {
        assert(a.spell.0 * low + low <= b.spell.0 * low);
    } else if b.spell.0 < a.spell.0 {
        assert(b.spell.0 * low + low <= a.spell.0 * low);
    }
}

fn key(id: SpellId) -> (key: u128)
    ensures
        key == key_of(id),
{
    (id.spellbook.0 as u128) * 0x1_0000_0000_0000_0000_0000_0000 + (id.spell.0 as u128)
        * 0x1_0000_0000_0000_0000 + (id.arity as u128)
}

impl View for Spells {
    type V = Map<SpellId, Spell>;

    closed spec fn view(&self) -> Map<SpellId, Spell> {
        Map::new(
            |id: SpellId| self.spells@.contains_key(key_of(id)),
            |id: SpellId| self.spells@[key_of(id)],
        )
    }
}

impl Spells {
    /// The database's invariant: it knows whether all of its spells are
    /// valid.
    pub closed spec fn wf(&self) -> bool {
        self.valid == valid_spells(self@)
    }

    /// Create an empty spell database.
    pub fn new() -> (spells: Self)
        ensures
            spells.wf(),
            spells@ == Map::<SpellId, Spell>::empty(),
    {
        let spells = Spells { spells: HashMap::new(), valid: true };
        assert(spells@ =~= Map::<SpellId, Spell>::empty());
        spells
    }

    /// Get a spell by its spellbook name, spell name, and arity.
    pub fn get(&self, id: SpellId) -> (spell: Option<&Spell>)
        ensures
            spell == (if self@.contains_key(id) {
                Some(&self@[id])
            } else {
                None
            }),
    {
        let key = key(id);
        self.spells.get(&key)
    }

    /// Insert a spell into the database, or return an error if the spell
    /// already exists.
    pub fn insert(&mut self, id: SpellId, spell: Spell) -> (result: Result<(), RedefinitionError>)
        requires
            old(self).wf(),
        ensures
            final(self).wf(),
            result is Err <==> old(self)@.contains_key(id),
            result is Err ==> final(self)@ == old(self)@,
            result is Ok ==> final(self)@ == old(self)@.insert(id, spell),
    {
        let key = key(id);
        if self.spells.contains_key(&key) {
            Err(RedefinitionError)
        } else {
            let valid = spell.is_valid(id.arity);
            self.spells.insert(key, spell);
            self.valid = self.valid && valid;
            proof {
                assert forall|other: SpellId| key_of(other) == key_of(id) implies other == id by {
                    lemma_key_of_injective(other, id);
                }
                assert(self@ =~= old(self)@.insert(id, spell));
                if valid_spells(old(self)@) && valid {
                    assert forall|other: SpellId| self@.contains_key(other) implies (
                    #[trigger] self@[other]).valid(other.arity as nat) by {
                        if other != id {
                            assert(old(self)@[other].valid(other.arity as nat));
                        }
                    }
                }
                if valid_spells(self@) {
                    assert(self@[id].valid(id.arity as nat));
                    assert forall|other: SpellId| old(self)@.contains_key(other) implies (
                    #[trigger] old(self)@[other]).valid(other.arity as nat) by {
                        assert(self@[other].valid(other.arity as nat));
                    }
                }
            }
            Ok(())
        }
    }

    /// Whether every spell of the database is valid for the arity under
    /// which it is filed: see [`valid_spells`].
    pub fn is_valid(&self) -> (valid: bool)
        requires
            self.wf(),
        ensures
            valid == valid_spells(self@),
    {
        self.valid
    }
}

/// Arity is part of a spell's identity: defining a spell does not define it
/// for any other arity.
pub proof fn lemma_arity_is_identity(
    spells: Map<SpellId, Spell>,
    id: SpellId,
    spell: Spell,
    arity: usize,
)
    requires
        arity != id.arity,
        !spells.contains_key(SpellId { arity, ..id }),
    ensures
        !spells.insert(id, spell).contains_key(SpellId { arity, ..id }),
{
}

} // verus!
