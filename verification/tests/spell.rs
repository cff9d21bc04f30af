use spellvm::sigil::Sigil;
use spellvm::spell::is_valid_code;
use spellvm::spell::Instruction;
use spellvm::spell::Local;
use spellvm::spell::Spell;
use spellvm::spell::SpellId;
use spellvm::spell::Spells;

fn returning(local: u32, local_variables: usize) -> Spell {
    Spell {
        instructions: vec![Instruction::Return { result: Local(local) }],
        local_variables,
    }
}

#[test]
fn get_finds_what_insert_put() {
    let mut spells = Spells::new();
    let id = SpellId { spellbook: Sigil(1), spell: Sigil(2), arity: 3 };
    assert!(spells.get(id).is_none());
    assert!(spells.insert(id, returning(0, 5)).is_ok());
    let found = spells.get(id).unwrap();
    assert_eq!(found.local_variables, 5);
    assert_eq!(found.instructions.len(), 1);
}

#[test]
fn arity_is_part_of_the_identity() {
    let mut spells = Spells::new();
    let id = SpellId { spellbook: Sigil(1), spell: Sigil(2), arity: 2 };
    assert!(spells.insert(id, returning(0, 2)).is_ok());
    assert!(spells.get(SpellId { arity: 1, ..id }).is_none());
    assert!(spells.get(SpellId { arity: 3, ..id }).is_none());
    assert!(spells.get(SpellId { arity: 0, ..id }).is_none());
    assert!(spells.get(SpellId { arity: usize::MAX, ..id }).is_none());
    assert!(spells.get(id).is_some());
    // Overloads by arity are distinct spells.
    assert!(spells.insert(SpellId { arity: 3, ..id }, returning(1, 4)).is_ok());
    assert_eq!(spells.get(id).unwrap().local_variables, 2);
    assert_eq!(spells.get(SpellId { arity: 3, ..id }).unwrap().local_variables, 4);
}

#[test]
fn every_part_of_the_identity_counts() {
    let mut spells = Spells::new();
    let id = SpellId { spellbook: Sigil(7), spell: Sigil(8), arity: 9 };
    assert!(spells.insert(id, returning(0, 9)).is_ok());
    assert!(spells.get(SpellId { spellbook: Sigil(8), spell: Sigil(7), arity: 9 }).is_none());
    assert!(spells.get(SpellId { spellbook: Sigil(7), spell: Sigil(9), arity: 8 }).is_none());
    assert!(spells.get(SpellId { spellbook: Sigil(0), spell: Sigil(8), arity: 9 }).is_none());
    assert!(spells.get(SpellId { spellbook: Sigil(7), spell: Sigil(0), arity: 9 }).is_none());
    let extreme = SpellId { spellbook: Sigil(u32::MAX), spell: Sigil(u32::MAX), arity: usize::MAX };
    assert!(spells.get(extreme).is_none());
    assert!(spells.insert(extreme, returning(0, 1)).is_ok());
    assert!(spells.get(extreme).is_some());
    assert!(spells.get(SpellId { arity: usize::MAX - 1, ..extreme }).is_none());
    assert!(spells.get(SpellId { spell: Sigil(u32::MAX - 1), ..extreme }).is_none());
    assert!(spells.get(SpellId { spellbook: Sigil(u32::MAX - 1), ..extreme }).is_none());
}

#[test]
fn redefinition_is_an_error_and_changes_nothing() {
    let mut spells = Spells::new();
    let id = SpellId { spellbook: Sigil(1), spell: Sigil(2), arity: 0 };
    assert!(spells.insert(id, returning(0, 1)).is_ok());
    assert!(spells.insert(id, returning(2, 3)).is_err());
    let found = spells.get(id).unwrap();
    assert_eq!(found.local_variables, 1);
    assert!(matches!(found.instructions[0], Instruction::Return { result: Local(0) }));
}

#[test]
fn valid_code_stays_in_its_frame() {
    let call = Instruction::InvokeStatic {
        result: Local(1),
        spellbook: Sigil(0),
        spell: Sigil(0),
        arguments: vec![Local(0), Local(1)],
    };
    let dispatch = Instruction::InvokeDynamic {
        result: Local(0),
        spell: Sigil(0),
        receiver: Local(1),
        arguments: vec![Local(0)],
    };
    let copy = Instruction::Copy { from: Local(0), to: Local(1) };
    let back = Instruction::Return { result: Local(1) };

    assert!(is_valid_code(&[back.clone()], 2));
    assert!(is_valid_code(&[copy.clone(), call.clone(), dispatch.clone(), back.clone()], 2));
    assert!(is_valid_code(&[back.clone(), back.clone()], 2));
    // No instruction at all.
    assert!(!is_valid_code(&[], 2));
    // The last instruction does not return.
    assert!(!is_valid_code(&[copy.clone()], 2));
    assert!(!is_valid_code(&[back.clone(), call.clone()], 2));
    // A local variable that the frame does not have.
    assert!(!is_valid_code(&[back.clone()], 1));
    assert!(!is_valid_code(&[copy.clone(), back.clone()], 1));
    assert!(!is_valid_code(&[call.clone(), Instruction::Return { result: Local(0) }], 1));
    assert!(!is_valid_code(&[dispatch.clone(), Instruction::Return { result: Local(0) }], 1));
    assert!(!is_valid_code(&[Instruction::Return { result: Local(0) }], 0));

    assert!(copy.fits_in(2));
    assert!(!copy.fits_in(1));
    assert!(back.is_return());
    assert!(!copy.is_return());
    assert!(Local(4).is_within(5));
    assert!(!Local(5).is_within(5));
}

#[test]
fn a_spell_needs_room_for_its_arguments() {
    let spell = returning(0, 2);
    assert!(spell.is_valid(0));
    assert!(spell.is_valid(2));
    assert!(!spell.is_valid(3));
}

#[test]
fn the_database_knows_whether_its_spells_are_valid() {
    let mut spells = Spells::new();
    assert!(spells.is_valid());
    let good = SpellId { spellbook: Sigil(1), spell: Sigil(1), arity: 1 };
    assert!(spells.insert(good, returning(0, 1)).is_ok());
    assert!(spells.is_valid());
    // A redefinition is refused, so it cannot spoil the database.
    assert!(spells.insert(good, returning(7, 1)).is_err());
    assert!(spells.is_valid());
    let bad = SpellId { spellbook: Sigil(1), spell: Sigil(2), arity: 1 };
    assert!(spells.insert(bad, returning(1, 1)).is_ok());
    assert!(!spells.is_valid());
    let fine = SpellId { spellbook: Sigil(1), spell: Sigil(3), arity: 0 };
    assert!(spells.insert(fine, returning(0, 1)).is_ok());
    assert!(!spells.is_valid());
}
