use spellvm::datum::Datum;
use spellvm::datum::Heap;
use spellvm::interpret::interpret_instruction;
use spellvm::interpret::CallStack;
use spellvm::interpret::ProgramCounter;
use spellvm::interpret::StackFrame;
use spellvm::sigil::Sigil;
use spellvm::spell::Instruction;
use spellvm::spell::Local;
use spellvm::spell::Spell;
use spellvm::spell::SpellId;
use spellvm::spell::Spells;

fn run<'a>(
    stack: &mut CallStack<'a>,
    heap: &mut Heap,
    spells: &'a Spells,
    empty: &Datum,
) -> Datum {
    for _ in 0..1000 {
        match stack.step(heap, spells, empty) {
            Ok(Some(value)) => return value,
            Ok(None) => {}
            Err(error) => panic!("missing spell {:?}", error.callee),
        }
    }
    panic!("execution did not end");
}

#[test]
fn static_call_and_return() {
    let book = Sigil(0);
    let main_name = Sigil(1);
    let f_name = Sigil(2);

    let mut spells = Spells::new();
    let main_id = SpellId { spellbook: book, spell: main_name, arity: 0 };
    let main = Spell {
        instructions: vec![
            Instruction::InvokeStatic {
                result: Local(1),
                spellbook: book,
                spell: f_name,
                arguments: vec![],
            },
            Instruction::Return { result: Local(1) },
        ],
        local_variables: 2,
    };
    let f = Spell {
        instructions: vec![
            Instruction::Copy { from: Local(0), to: Local(0) },
            Instruction::Return { result: Local(0) },
        ],
        local_variables: 1,
    };
    assert!(main.is_valid(0));
    assert!(f.is_valid(0));
    assert!(spells.insert(main_id, main).is_ok());
    assert!(spells.insert(SpellId { spellbook: book, spell: f_name, arity: 0 }, f).is_ok());

    let mut heap = Heap::new();
    let other = heap.allocate(Sigil(9), &[], &[1]);
    let x = heap.allocate(Sigil(9), &[], &[2]);

    let main = spells.get(main_id).unwrap();
    let frame = StackFrame::new(&mut heap, main, vec![], Local(0), &other);
    let mut stack = CallStack { stack_frames: vec![frame] };

    let value = run(&mut stack, &mut heap, &spells, &x);

    assert!(value.same(&x));
    assert!(stack.stack_frames.is_empty());
    assert_eq!(heap.roots(&x), 2);
    assert_eq!(heap.roots(&other), 1);
    value.release(&mut heap);
    assert_eq!(heap.roots(&x), 1);
}

#[test]
fn dynamic_dispatch() {
    let t = Sigil(5);
    let m = Sigil(6);

    let mut spells = Spells::new();
    let method_id = SpellId { spellbook: t, spell: m, arity: 1 };
    let method = Spell {
        instructions: vec![Instruction::Return { result: Local(0) }],
        local_variables: 1,
    };
    assert!(spells.insert(method_id, method).is_ok());

    let mut heap = Heap::new();
    let empty = heap.allocate(Sigil(0), &[], &[]);
    let r = heap.allocate(t, &[], &[]);

    let code = vec![Instruction::InvokeDynamic {
        result: Local(1),
        spell: m,
        receiver: Local(0),
        arguments: vec![],
    }];
    let frame = StackFrame {
        program_counter: ProgramCounter { instructions: &code, next_instruction: 0 },
        local_variables: vec![r.retain(&mut heap), empty.retain(&mut heap)],
        return_into: Local(0),
    };
    let mut stack = CallStack { stack_frames: vec![frame] };

    let top = &mut stack.stack_frames[0];
    let mutation =
        interpret_instruction(&mut heap, top.program_counter, &mut top.local_variables);
    assert_eq!(mutation.jump.next_instruction, 1);
    assert!(mutation.exit.is_none());
    {
        let call = mutation.call.as_ref().unwrap();
        assert_eq!(call.callee, method_id);
        assert_eq!(call.return_into, Local(1));
        assert_eq!(call.arguments.len(), 1);
        assert!(call.arguments[0].same(&r));
    }

    // The call: the frame of the callee becomes the active frame.
    let applied = stack.apply(&mut heap, &spells, mutation, &empty);
    assert!(matches!(applied, Ok(None)));
    assert_eq!(stack.stack_frames.len(), 2);
    assert_eq!(stack.stack_frames[0].program_counter.next_instruction, 1);
    assert_eq!(stack.stack_frames[1].program_counter.next_instruction, 0);
    assert_eq!(stack.stack_frames[1].return_into, Local(1));
    assert!(stack.stack_frames[1].local_variables[0].same(&r));

    // The return: the caller is the active frame again, and holds the value.
    let returned = stack.step(&mut heap, &spells, &empty);
    assert!(matches!(returned, Ok(None)));
    assert_eq!(stack.stack_frames.len(), 1);
    assert!(stack.stack_frames[0].local_variables[0].same(&r));
    assert!(stack.stack_frames[0].local_variables[1].same(&r));
    assert_eq!(heap.roots(&r), 3);
    assert_eq!(heap.roots(&empty), 1);
}

/// A heap with three data of distinct payloads, and a handle to each.
fn three(heap: &mut Heap) -> (Datum, Datum, Datum) {
    let a = heap.allocate(Sigil(10), &[], &[0]);
    let b = heap.allocate(Sigil(11), &[], &[1]);
    let c = heap.allocate(Sigil(12), &[], &[2]);
    (a, b, c)
}

#[test]
fn program_counter_points_and_jumps() {
    let code = vec![
        Instruction::Copy { from: Local(0), to: Local(1) },
        Instruction::Return { result: Local(1) },
    ];
    let start = ProgramCounter { instructions: &code, next_instruction: 0 };
    assert!(matches!(start.get(), Instruction::Copy { from: Local(0), to: Local(1) }));
    let next = start.advance();
    assert_eq!(next.next_instruction, 1);
    assert!(matches!(next.get(), Instruction::Return { result: Local(1) }));
    let back = next.jump(0);
    assert_eq!(back.next_instruction, 0);
    assert_eq!(back.instructions.len(), 2);
    // A jump may leave the program counter out of bounds; only `get` minds.
    assert_eq!(next.advance().next_instruction, 2);
    assert_eq!(start.jump(7).next_instruction, 7);
}

#[test]
fn copy_overwrites_one_local_and_advances() {
    let mut heap = Heap::new();
    let (a, b, c) = three(&mut heap);
    let code = vec![Instruction::Copy { from: Local(2), to: Local(0) }];
    let pc = ProgramCounter { instructions: &code, next_instruction: 0 };
    let mut locals = vec![a.retain(&mut heap), b.retain(&mut heap), c.retain(&mut heap)];

    let mutation = interpret_instruction(&mut heap, pc, &mut locals);

    assert_eq!(mutation.jump.next_instruction, 1);
    assert!(mutation.exit.is_none());
    assert!(mutation.call.is_none());
    assert!(locals[0].same(&c));
    assert!(locals[1].same(&b));
    assert!(locals[2].same(&c));
    // The handle that was overwritten is given up, the copy is a new one.
    assert_eq!(heap.roots(&a), 1);
    assert_eq!(heap.roots(&b), 2);
    assert_eq!(heap.roots(&c), 3);
}

#[test]
fn copy_onto_itself_changes_nothing() {
    let mut heap = Heap::new();
    let (a, b, _c) = three(&mut heap);
    let code = vec![Instruction::Copy { from: Local(1), to: Local(1) }];
    let pc = ProgramCounter { instructions: &code, next_instruction: 0 };
    let mut locals = vec![a.retain(&mut heap), b.retain(&mut heap)];

    let mutation = interpret_instruction(&mut heap, pc, &mut locals);

    assert_eq!(mutation.jump.next_instruction, 1);
    assert!(locals[0].same(&a));
    assert!(locals[1].same(&b));
    assert_eq!(heap.roots(&a), 2);
    assert_eq!(heap.roots(&b), 2);
}

#[test]
fn invoke_static_gathers_the_arguments_in_order() {
    let mut heap = Heap::new();
    let (a, b, c) = three(&mut heap);
    let code = vec![Instruction::InvokeStatic {
        result: Local(1),
        spellbook: Sigil(40),
        spell: Sigil(41),
        arguments: vec![Local(2), Local(0), Local(2)],
    }];
    let pc = ProgramCounter { instructions: &code, next_instruction: 0 };
    let mut locals = vec![a.retain(&mut heap), b.retain(&mut heap), c.retain(&mut heap)];

    let mutation = interpret_instruction(&mut heap, pc, &mut locals);

    assert_eq!(mutation.jump.next_instruction, 1);
    assert!(mutation.exit.is_none());
    let call = mutation.call.unwrap();
    assert_eq!(call.callee, SpellId { spellbook: Sigil(40), spell: Sigil(41), arity: 3 });
    assert_eq!(call.return_into, Local(1));
    assert_eq!(call.arguments.len(), 3);
    assert!(call.arguments[0].same(&c));
    assert!(call.arguments[1].same(&a));
    assert!(call.arguments[2].same(&c));
    // The local variables are as they were; every argument is a new handle.
    assert!(locals[0].same(&a));
    assert!(locals[1].same(&b));
    assert!(locals[2].same(&c));
    assert_eq!(heap.roots(&a), 3);
    assert_eq!(heap.roots(&b), 2);
    assert_eq!(heap.roots(&c), 4);
}

#[test]
fn invoke_dynamic_dispatches_on_the_receiver() {
    let mut heap = Heap::new();
    let (a, b, c) = three(&mut heap);
    let code = vec![Instruction::InvokeDynamic {
        result: Local(0),
        spell: Sigil(50),
        receiver: Local(1),
        arguments: vec![Local(2), Local(0)],
    }];
    let pc = ProgramCounter { instructions: &code, next_instruction: 0 };
    let mut locals = vec![a.retain(&mut heap), b.retain(&mut heap), c.retain(&mut heap)];

    let mutation = interpret_instruction(&mut heap, pc, &mut locals);

    assert_eq!(mutation.jump.next_instruction, 1);
    assert!(mutation.exit.is_none());
    let call = mutation.call.unwrap();
    // The spellbook is the enchantment of the receiver, which is also the
    // first argument; the arity counts it.
    assert_eq!(call.callee, SpellId { spellbook: Sigil(11), spell: Sigil(50), arity: 3 });
    assert_eq!(call.return_into, Local(0));
    assert_eq!(call.arguments.len(), 3);
    assert!(call.arguments[0].same(&b));
    assert!(call.arguments[1].same(&c));
    assert!(call.arguments[2].same(&a));
    assert_eq!(heap.roots(&a), 3);
    assert_eq!(heap.roots(&b), 3);
    assert_eq!(heap.roots(&c), 3);
}

#[test]
fn return_does_not_advance() {
    let mut heap = Heap::new();
    let (a, b, _c) = three(&mut heap);
    let code = vec![
        Instruction::Copy { from: Local(0), to: Local(0) },
        Instruction::Return { result: Local(1) },
    ];
    let pc = ProgramCounter { instructions: &code, next_instruction: 1 };
    let mut locals = vec![a.retain(&mut heap), b.retain(&mut heap)];

    let mutation = interpret_instruction(&mut heap, pc, &mut locals);

    assert_eq!(mutation.jump.next_instruction, 1);
    assert!(mutation.call.is_none());
    assert!(mutation.exit.unwrap().same(&b));
    assert!(locals[0].same(&a));
    assert!(locals[1].same(&b));
    assert_eq!(heap.roots(&a), 2);
    assert_eq!(heap.roots(&b), 3);
}

#[test]
fn a_new_frame_holds_the_arguments_and_padding() {
    let mut heap = Heap::new();
    let (a, b, empty) = three(&mut heap);
    let spell = Spell {
        instructions: vec![Instruction::Return { result: Local(0) }],
        local_variables: 5,
    };
    let arguments = vec![b.retain(&mut heap), a.retain(&mut heap)];

    let frame = StackFrame::new(&mut heap, &spell, arguments, Local(3), &empty);

    assert_eq!(frame.program_counter.next_instruction, 0);
    assert_eq!(frame.program_counter.instructions.len(), 1);
    assert_eq!(frame.return_into, Local(3));
    assert_eq!(frame.local_variables.len(), 5);
    assert!(frame.local_variables[0].same(&b));
    assert!(frame.local_variables[1].same(&a));
    assert!(frame.local_variables[2].same(&empty));
    assert!(frame.local_variables[3].same(&empty));
    assert!(frame.local_variables[4].same(&empty));
    assert_eq!(heap.roots(&empty), 4);
    assert!(frame.is_valid());

    frame.release(&mut heap);
    assert_eq!(heap.roots(&a), 1);
    assert_eq!(heap.roots(&b), 1);
    assert_eq!(heap.roots(&empty), 1);
}

#[test]
fn a_frame_without_padding() {
    let mut heap = Heap::new();
    let (a, _b, empty) = three(&mut heap);
    let spell = Spell {
        instructions: vec![Instruction::Return { result: Local(0) }],
        local_variables: 1,
    };
    let arguments = vec![a.retain(&mut heap)];
    let frame = StackFrame::new(&mut heap, &spell, arguments, Local(0), &empty);
    assert_eq!(frame.local_variables.len(), 1);
    assert!(frame.local_variables[0].same(&a));
    assert_eq!(heap.roots(&empty), 1);
}

#[test]
fn a_missing_spell_fails_the_execution() {
    let mut heap = Heap::new();
    let (a, b, empty) = three(&mut heap);
    let spells = Spells::new();
    let code = vec![
        Instruction::InvokeStatic {
            result: Local(0),
            spellbook: Sigil(1),
            spell: Sigil(2),
            arguments: vec![Local(1), Local(1)],
        },
        Instruction::Return { result: Local(0) },
    ];
    let frame = StackFrame {
        program_counter: ProgramCounter { instructions: &code, next_instruction: 0 },
        local_variables: vec![a.retain(&mut heap), b.retain(&mut heap)],
        return_into: Local(0),
    };
    let mut stack = CallStack { stack_frames: vec![frame] };

    let result = stack.step(&mut heap, &spells, &empty);

    let error = result.unwrap_err();
    assert_eq!(error.callee, SpellId { spellbook: Sigil(1), spell: Sigil(2), arity: 2 });
    // The jump is recorded, and the handles of the call are given up.
    assert_eq!(stack.stack_frames.len(), 1);
    assert_eq!(stack.stack_frames[0].program_counter.next_instruction, 1);
    assert_eq!(heap.roots(&a), 2);
    assert_eq!(heap.roots(&b), 2);
    assert_eq!(heap.roots(&empty), 1);
}

#[test]
fn a_mutation_without_call_or_exit_only_jumps() {
    let mut heap = Heap::new();
    let (a, b, empty) = three(&mut heap);
    let spells = Spells::new();
    let code = vec![
        Instruction::Copy { from: Local(0), to: Local(1) },
        Instruction::Return { result: Local(1) },
    ];
    let frame = StackFrame {
        program_counter: ProgramCounter { instructions: &code, next_instruction: 0 },
        local_variables: vec![a.retain(&mut heap), b.retain(&mut heap)],
        return_into: Local(0),
    };
    let mut stack = CallStack { stack_frames: vec![frame] };
    assert!(stack.is_valid());

    let result = stack.step(&mut heap, &spells, &empty);

    assert!(matches!(result, Ok(None)));
    assert_eq!(stack.stack_frames.len(), 1);
    assert_eq!(stack.stack_frames[0].program_counter.next_instruction, 1);
    assert!(stack.stack_frames[0].local_variables[1].same(&a));
    assert_eq!(heap.roots(&a), 3);
    assert_eq!(heap.roots(&b), 1);
    assert!(stack.is_valid());

    // The return of the bottom frame ends the execution with the value.
    let result = stack.step(&mut heap, &spells, &empty);
    let value = result.unwrap().unwrap();
    assert!(value.same(&a));
    assert!(stack.stack_frames.is_empty());
    assert_eq!(heap.roots(&a), 2);
    assert_eq!(heap.roots(&b), 1);
}

#[test]
fn a_returned_value_goes_where_the_frame_says() {
    let mut heap = Heap::new();
    let (a, b, empty) = three(&mut heap);
    let spells = Spells::new();
    let caller_code = vec![Instruction::Return { result: Local(0) }];
    let callee_code = vec![Instruction::Return { result: Local(0) }];
    let caller = StackFrame {
        program_counter: ProgramCounter { instructions: &caller_code, next_instruction: 0 },
        local_variables: vec![
            a.retain(&mut heap),
            a.retain(&mut heap),
            a.retain(&mut heap),
        ],
        return_into: Local(0),
    };
    let callee = StackFrame {
        program_counter: ProgramCounter { instructions: &callee_code, next_instruction: 0 },
        local_variables: vec![b.retain(&mut heap)],
        return_into: Local(2),
    };
    let mut stack = CallStack { stack_frames: vec![caller, callee] };
    assert!(stack.is_valid());

    let result = stack.step(&mut heap, &spells, &empty);

    assert!(matches!(result, Ok(None)));
    assert_eq!(stack.stack_frames.len(), 1);
    let locals = &stack.stack_frames[0].local_variables;
    assert!(locals[0].same(&a));
    assert!(locals[1].same(&a));
    assert!(locals[2].same(&b));
    // The caller was not resumed: its program counter is where it was.
    assert_eq!(stack.stack_frames[0].program_counter.next_instruction, 0);
    // The frame and the handle that was overwritten are given up.
    assert_eq!(heap.roots(&a), 3);
    assert_eq!(heap.roots(&b), 2);
}

#[test]
fn a_tail_call_replaces_the_active_frame() {
    let mut heap = Heap::new();
    let (a, b, empty) = three(&mut heap);
    let mut spells = Spells::new();
    let target = SpellId { spellbook: Sigil(1), spell: Sigil(2), arity: 1 };
    let spell = Spell {
        instructions: vec![Instruction::Return { result: Local(0) }],
        local_variables: 2,
    };
    assert!(spells.insert(target, spell).is_ok());

    let caller_code = vec![Instruction::Return { result: Local(0) }];
    let active_code = vec![Instruction::Return { result: Local(0) }];
    let caller = StackFrame {
        program_counter: ProgramCounter { instructions: &caller_code, next_instruction: 0 },
        local_variables: vec![a.retain(&mut heap), a.retain(&mut heap)],
        return_into: Local(0),
    };
    let active = StackFrame {
        program_counter: ProgramCounter { instructions: &active_code, next_instruction: 0 },
        local_variables: vec![b.retain(&mut heap)],
        return_into: Local(1),
    };
    let mut stack = CallStack { stack_frames: vec![caller, active] };

    // A mutation with both a call and an exit asks for a tail call.
    let mutation = spellvm::interpret::CallStackMutation {
        jump: stack.stack_frames[1].program_counter,
        exit: Some(a.retain(&mut heap)),
        call: Some(spellvm::interpret::Call {
            callee: target,
            arguments: vec![b.retain(&mut heap)],
            return_into: Local(0),
        }),
    };
    let result = stack.apply(&mut heap, &spells, mutation, &empty);

    assert!(matches!(result, Ok(None)));
    assert_eq!(stack.stack_frames.len(), 2);
    let entered = &stack.stack_frames[1];
    assert_eq!(entered.program_counter.next_instruction, 0);
    assert_eq!(entered.local_variables.len(), 2);
    assert!(entered.local_variables[0].same(&b));
    assert!(entered.local_variables[1].same(&empty));
    // The new frame returns to the caller of the frame that it replaced.
    assert_eq!(entered.return_into, Local(1));
    // The old frame and the returned value are given up.
    assert_eq!(heap.roots(&a), 3);
    assert_eq!(heap.roots(&b), 2);
    assert_eq!(heap.roots(&empty), 2);

    let result = stack.step(&mut heap, &spells, &empty);
    assert!(matches!(result, Ok(None)));
    assert_eq!(stack.stack_frames.len(), 1);
    assert!(stack.stack_frames[0].local_variables[0].same(&a));
    assert!(stack.stack_frames[0].local_variables[1].same(&b));
}

#[test]
fn a_call_stack_checks_its_frames() {
    let mut heap = Heap::new();
    let (a, _b, _c) = three(&mut heap);
    let code = vec![
        Instruction::Copy { from: Local(0), to: Local(0) },
        Instruction::Return { result: Local(0) },
    ];
    let frame = |heap: &mut Heap, next_instruction: usize, return_into: u32| StackFrame {
        program_counter: ProgramCounter { instructions: &code, next_instruction },
        local_variables: vec![a.retain(heap)],
        return_into: Local(return_into),
    };
    assert!(CallStack { stack_frames: vec![] }.is_valid());
    assert!(CallStack { stack_frames: vec![frame(&mut heap, 0, 9)] }.is_valid());
    assert!(CallStack { stack_frames: vec![frame(&mut heap, 1, 0)] }.is_valid());
    // The program counter has run over the end.
    assert!(!CallStack { stack_frames: vec![frame(&mut heap, 2, 0)] }.is_valid());
    // The caller has no local variable to take the result.
    let stack = CallStack { stack_frames: vec![frame(&mut heap, 0, 0), frame(&mut heap, 0, 1)] };
    assert!(!stack.is_valid());
    let stack = CallStack { stack_frames: vec![frame(&mut heap, 0, 0), frame(&mut heap, 0, 0)] };
    assert!(stack.is_valid());
    // A frame without the local variable that its code names.
    let short = StackFrame {
        program_counter: ProgramCounter { instructions: &code, next_instruction: 0 },
        local_variables: vec![],
        return_into: Local(0),
    };
    assert!(!short.is_valid());
}

#[test]
fn handles_on_the_call_stack_survive_collections() {
    let mut heap = Heap::new();
    let (a, b, empty) = three(&mut heap);
    let mut spells = Spells::new();
    let callee = SpellId { spellbook: Sigil(1), spell: Sigil(2), arity: 1 };
    let spell = Spell {
        instructions: vec![
            Instruction::Copy { from: Local(0), to: Local(1) },
            Instruction::Return { result: Local(1) },
        ],
        local_variables: 2,
    };
    assert!(spells.insert(callee, spell).is_ok());
    let code = vec![
        Instruction::InvokeStatic {
            result: Local(1),
            spellbook: Sigil(1),
            spell: Sigil(2),
            arguments: vec![Local(0)],
        },
        Instruction::Return { result: Local(1) },
    ];
    let frame = StackFrame {
        program_counter: ProgramCounter { instructions: &code, next_instruction: 0 },
        local_variables: vec![a.retain(&mut heap), b.retain(&mut heap)],
        return_into: Local(0),
    };
    // Only the call stack and `empty` anchor the data from here on.
    a.release(&mut heap);
    b.release(&mut heap);
    let mut stack = CallStack { stack_frames: vec![frame] };

    // The call, the copy in the callee, and its return.
    for _ in 0..3 {
        assert_eq!(heap.collect_garbage().data_freed, 0);
        assert!(matches!(stack.step(&mut heap, &spells, &empty), Ok(None)));
    }
    // The returned value has overwritten the only handle to the second
    // datum, which is garbage now.
    assert_eq!(heap.len(), 3);
    assert_eq!(heap.collect_garbage().data_freed, 1);
    assert_eq!(heap.len(), 2);

    let value = stack.step(&mut heap, &spells, &empty).unwrap().unwrap();
    assert_eq!(heap.collect_garbage().data_freed, 0);
    assert_eq!(value.auxiliary(&heap), &[0]);
    assert_eq!(heap.roots(&value), 1);
    assert_eq!(heap.len(), 2);
}
