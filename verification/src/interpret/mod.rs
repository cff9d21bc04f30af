//! The instruction interpreter.

pub mod call_stack;
pub mod driver;

pub use self::call_stack::CallStack;
pub use self::call_stack::CounterView;
pub use self::call_stack::FrameView;
pub use self::call_stack::ProgramCounter;
pub use self::call_stack::StackFrame;
pub use self::driver::MissingSpellError;

use crate::datum::Datum;
use crate::datum::handles::accounts;
use crate::datum::handles::all_rooted;
use crate::datum::handles::count;
use crate::datum::handles::headroom;
use crate::datum::handles::lemma_accounts_balance;
use crate::datum::handles::lemma_accounts_nothing;
use crate::datum::handles::lemma_accounts_record;
use crate::datum::handles::lemma_accounts_release;
use crate::datum::handles::lemma_accounts_retain;
use crate::datum::handles::lemma_accounts_then;
use crate::datum::handles::lemma_accounts_valid;
use crate::datum::handles::lemma_count_bounds;
use crate::datum::handles::lemma_count_concat;
use crate::datum::handles::lemma_count_push;
use crate::datum::handles::lemma_count_update;
use crate::datum::handles::rooted;
use crate::datum::Heap;
use crate::datum::ids;
use crate::datum::record;
use crate::datum::Record;
use crate::datum::valid_heap;
use crate::spell::code::all_within;
use crate::spell::Instruction;
use crate::spell::Local;
use crate::spell::SpellId;
use vstd::prelude::*;

verus! {

/// A description of what must happen to the call stack after interpreting an
/// instruction.
///
/// Both exit and call may be set. In that case, a tail call must occur.
#[derive(Debug)]
pub struct CallStackMutation<'a> {
    /// Which instruction to jump to before changing the active stack
    /// frame. Not relevant if exit is set.
    pub jump: ProgramCounter<'a>,
    /// Exit the stack frame with a return value.
    pub exit: Option<Datum>,
    /// Create a new stack frame, invoking a spell with some arguments.
    pub call: Option<Call>,
}

/// A call to be performed.
#[derive(Debug)]
pub struct Call {
    pub callee: SpellId,
    pub arguments: Vec<Datum>,
    pub return_into: Local,
}

/// The model of a [`Call`]: the handles are known by the data they refer to.
pub struct CallView {
    pub callee: SpellId,
    pub arguments: Seq<u64>,
    pub return_into: Local,
}

/// The model of a [`CallStackMutation`]: the handles are known by the data
/// they refer to.
pub struct MutationView {
    pub jump: CounterView,
    pub exit: Option<u64>,
    pub call: Option<CallView>,
}

impl View for Call {
    type V = CallView;

    open spec fn view(&self) -> CallView {
        CallView {
            callee: self.callee,
            arguments: ids(self.arguments@),
            return_into: self.return_into,
        }
    }
}

impl<'a> View for CallStackMutation<'a> {
    type V = MutationView;

    open spec fn view(&self) -> MutationView {
        MutationView {
            jump: self.jump@,
            exit: match self.exit {
                Some(value) => Some(value.id()),
                None => None,
            },
            call: match self.call {
                Some(call) => Some(call@),
                None => None,
            },
        }
    }
}

impl MutationView {
    /// The handles that the mutation carries: the return value, then the
    /// arguments of the call.
    pub open spec fn handles(self) -> Seq<u64> {
        (match self.exit {
            Some(value) => seq![value],
            None => Seq::empty(),
        }) + (match self.call {
            Some(call) => call.arguments,
            None => Seq::empty(),
        })
    }
}

/// The data that the local variables `arguments` hold.
pub open spec fn gathered(locals: Seq<u64>, arguments: Seq<Local>) -> Seq<u64> {
    arguments.map_values(|argument: Local| locals[argument.0 as int])
}

/// What interpreting the next instruction does on the heap `heap` to a frame
/// with the program counter `pc` and the local variables `locals`: the local
/// variables afterwards, and the mutation asked of the call stack.
pub open spec fn interpreted(heap: Seq<Record>, pc: CounterView, locals: Seq<u64>) -> (
    Seq<u64>,
    MutationView,
) {
    match pc.current() {
        Instruction::Copy { from, to } => (
            locals.update(to.0 as int, locals[from.0 as int]),
            MutationView { jump: pc.advanced(), exit: None, call: None },
        ),
        Instruction::InvokeStatic { result, spellbook, spell, arguments } => (
            locals,
            MutationView {
                jump: pc.advanced(),
                exit: None,
                call: Some(
                    CallView {
                        callee: SpellId { spellbook, spell, arity: arguments@.len() as usize },
                        arguments: gathered(locals, arguments@),
                        return_into: result,
                    },
                ),
            },
        ),
        Instruction::InvokeDynamic { result, spell, receiver, arguments } => (
            locals,
            MutationView {
                jump: pc.advanced(),
                exit: None,
                call: Some(
                    CallView {
                        callee: SpellId {
                            spellbook: record(heap, locals[receiver.0 as int]).enchantment,
                            spell,
                            arity: (1 + arguments@.len()) as usize,
                        },
                        arguments: seq![locals[receiver.0 as int]] + gathered(locals, arguments@),
                        return_into: result,
                    },
                ),
            },
        ),
        Instruction::Return { result } => (
            locals,
            MutationView { jump: pc, exit: Some(locals[result.0 as int]), call: None },
        ),
    }
}

/// Put a handle into a local variable, and hand out the one that was there.
pub(crate) fn store(local_variables: &mut [Datum], at: usize, value: Datum) -> (replaced: Datum)
    requires
        at < old(local_variables)@.len(),
    ensures
        final(local_variables)@ == old(local_variables)@.update(at as int, value),
        replaced == old(local_variables)@[at as int],
{
    let mut value = value;
    core::mem::swap(&mut local_variables[at], &mut value);
    value
}

/// Create a handle to the datum in each of the local variables `arguments`,
/// in order, and append the handles to `values`.
fn gather(
    heap: &mut Heap,
    local_variables: &[Datum],
    arguments: &Vec<Local>,
    values: &mut Vec<Datum>,
)
    requires
        old(heap).wf(),
        all_within(arguments@, local_variables@.len()),
        all_rooted(old(heap)@, ids(local_variables@)),
        headroom(old(heap)@, ids(local_variables@), arguments@.len()),
    ensures
        final(heap).wf(),
        final(heap).allocated() == old(heap).allocated(),
        ids(final(values)@) == ids(old(values)@) + gathered(ids(local_variables@), arguments@),
        accounts(
            old(heap)@,
            final(heap)@,
            Seq::empty(),
            gathered(ids(local_variables@), arguments@),
        ),
{
    let ghost start = heap@;
    let ghost locals = ids(local_variables@);
    let mut k: usize = 0;
    proof {
        lemma_accounts_nothing(start);
        assert(gathered(locals, arguments@.take(0)) =~= Seq::<u64>::empty());
        assert(ids(values@) =~= ids(old(values)@) + gathered(locals, arguments@.take(0)));
    }
    while k < arguments.len()
        invariant
            heap.wf(),
            start == old(heap)@,
            valid_heap(start),
            locals == ids(local_variables@),
            heap.allocated() == old(heap).allocated(),
            k <= arguments@.len(),
            all_within(arguments@, local_variables@.len()),
            all_rooted(start, locals),
            headroom(start, locals, arguments@.len()),
            accounts(start, heap@, Seq::empty(), gathered(locals, arguments@.take(k as int))),
            ids(values@) == ids(old(values)@) + gathered(locals, arguments@.take(k as int)),
        decreases arguments@.len() - k,
    {
        let ghost made = gathered(locals, arguments@.take(k as int));
        let ghost now = heap@;
        let ghost values_before = values@;
        let at = arguments[k].0 as usize;
        proof {
            let id = locals[at as int];
            assert(rooted(start, id));
            lemma_accounts_record(start, now, Seq::empty(), made, id);
            lemma_count_bounds(made, id);
            lemma_accounts_retain(start, now, Seq::empty(), made, id);
            assert(gathered(locals, arguments@.take(k + 1)) =~= made.push(id));
        }
        let value = local_variables[at].retain(heap);
        values.push(value);
        proof {
            assert(ids(values@) =~= ids(values_before).push(value.id()));
            assert(ids(values@) =~= ids(old(values)@) + gathered(
                locals,
                arguments@.take(k + 1),
            ));
        }
        k += 1;
    }
    proof {
        assert(arguments@.take(k as int) =~= arguments@);
    }
}

/// Interpret a single instruction and return what should happen to the call
/// stack.
///
/// The instruction is the one that `program_counter` points at, which must
/// be in bounds; the local variables that it reads or writes must exist.
/// Every local variable must hold a handle to a rooted datum of `heap`, and
/// the root counts must have room for the handles that the instruction
/// creates. Every handle that the mutation carries is a new handle: the heap
/// counts a root for it. [`interpreted`] says in full what becomes of the
/// local variables and what the mutation is.
pub fn interpret_instruction<'a>(
    heap: &mut Heap,
    program_counter: ProgramCounter<'a>,
    local_variables: &mut [Datum],
) -> (mutation: CallStackMutation<'a>)
    requires
        old(heap).wf(),
        program_counter@.in_bounds(),
        program_counter@.current().touches_within(old(local_variables)@.len()),
        all_rooted(old(heap)@, ids(old(local_variables)@)),
        headroom(
            old(heap)@,
            ids(old(local_variables)@),
            program_counter@.current().handles(),
        ),
    ensures
        final(heap).wf(),
        final(heap).allocated() == old(heap).allocated(),
        (ids(final(local_variables)@), mutation@) == interpreted(
            old(heap)@,
            program_counter@,
            ids(old(local_variables)@),
        ),
        accounts(
            old(heap)@,
            final(heap)@,
            ids(old(local_variables)@),
            ids(final(local_variables)@) + mutation@.handles(),
        ),
        mutation.call matches Some(call) ==> call.callee.arity == call.arguments@.len(),
{
    let ghost start = heap@;
    let ghost locals = ids(local_variables@);
    proof {
        lemma_accounts_nothing(start);
        // The instructions are in memory, so their number fits a `usize`.
        assert(program_counter.instructions@.len() == program_counter.instructions.len());
    }
    match program_counter.get() {
        Instruction::Copy { from, to } => {
            let ghost from_id = locals[from.0 as int];
            let ghost to_id = locals[to.0 as int];
            proof {
                assert(rooted(start, from_id));
                lemma_accounts_retain(start, start, Seq::empty(), Seq::empty(), from_id);
            }
            let value = local_variables[from.0 as usize].retain(heap);
            let ghost retained = heap@;
            let replaced = store(local_variables, to.0 as usize, value);
            proof {
                assert(rooted(start, to_id));
                lemma_accounts_record(
                    start,
                    retained,
                    Seq::empty(),
                    Seq::<u64>::empty().push(from_id),
                    to_id,
                );
                lemma_accounts_release(
                    start,
                    retained,
                    Seq::empty(),
                    Seq::<u64>::empty().push(from_id),
                    to_id,
                );
            }
            replaced.release(heap);
            let mutation = CallStackMutation {
                jump: program_counter.advance(),
                exit: None,
                call: None,
            };
            proof {
                let after = ids(local_variables@);
                assert(after =~= locals.update(to.0 as int, from_id));
                assert(mutation@.handles() =~= Seq::<u64>::empty());
                assert(after + mutation@.handles() =~= after);
                assert forall|id: u64|
                    #![trigger count(after, id)]
                    #![trigger count(locals, id)]
                    count(Seq::<u64>::empty().push(from_id), id) + count(locals, id) == count(
                        after,
                        id,
                    ) + count(Seq::<u64>::empty().push(to_id), id) by {
                    lemma_count_update(locals, to.0 as int, from_id, id);
                    lemma_count_push(Seq::empty(), from_id, id);
                    lemma_count_push(Seq::empty(), to_id, id);
                }
                lemma_accounts_balance(
                    start,
                    heap@,
                    Seq::<u64>::empty().push(to_id),
                    Seq::<u64>::empty().push(from_id),
                    locals,
                    after,
                );
            }
            mutation
        },
        Instruction::InvokeStatic { result, spellbook, spell, arguments } => {
            let mut argument_values: Vec<Datum> = Vec::new();
            gather(heap, local_variables, arguments, &mut argument_values);
            let callee = SpellId {
                spellbook: *spellbook,
                spell: *spell,
                arity: argument_values.len(),
            };
            let call = Call { callee, arguments: argument_values, return_into: *result };
            let mutation = CallStackMutation {
                jump: program_counter.advance(),
                exit: None,
                call: Some(call),
            };
            proof {
                let made = gathered(locals, arguments@);
                assert(ids(argument_values@) =~= made);
                assert(mutation@.handles() =~= made);
                assert forall|id: u64|
                    #![trigger count(locals + made, id)]
                    #![trigger count(locals, id)]
                    count(made, id) + count(locals, id) == count(locals + made, id) + count(
                        Seq::<u64>::empty(),
                        id,
                    ) by {
                    lemma_count_concat(locals, made, id);
                }
                lemma_accounts_balance(start, heap@, Seq::empty(), made, locals, locals + made);
            }
            mutation
        },
        Instruction::InvokeDynamic { result, spell, receiver, arguments } => {
            let ghost receiver_id = locals[receiver.0 as int];
            proof {
                assert(rooted(start, receiver_id));
                lemma_accounts_retain(start, start, Seq::empty(), Seq::empty(), receiver_id);
            }
            let receiver_value = local_variables[receiver.0 as usize].retain(heap);
            let ghost retained = heap@;
            let enchantment = receiver_value.enchantment(heap);
            let mut argument_values: Vec<Datum> = Vec::new();
            argument_values.push(receiver_value);
            proof {
                let first = Seq::<u64>::empty().push(receiver_id);
                lemma_accounts_valid(start, retained, Seq::empty(), first);
                lemma_accounts_record(start, retained, Seq::empty(), first, receiver_id);
                assert forall|k: int| 0 <= k < locals.len() implies rooted(
                    retained,
                    #[trigger] locals[k],
                ) by {
                    assert(rooted(start, locals[k]));
                    lemma_accounts_record(start, retained, Seq::empty(), first, locals[k]);
                }
                assert forall|k: int| 0 <= k < locals.len() implies record(
                    retained,
                    #[trigger] locals[k],
                ).roots + arguments@.len() <= usize::MAX by {
                    lemma_accounts_record(start, retained, Seq::empty(), first, locals[k]);
                    lemma_count_bounds(first, locals[k]);
                }
            }
            gather(heap, local_variables, arguments, &mut argument_values);
            let callee = SpellId {
                spellbook: enchantment,
                spell: *spell,
                arity: argument_values.len(),
            };
            let call = Call { callee, arguments: argument_values, return_into: *result };
            let mutation = CallStackMutation {
                jump: program_counter.advance(),
                exit: None,
                call: Some(call),
            };
            proof {
                let first = Seq::<u64>::empty().push(receiver_id);
                let rest = gathered(locals, arguments@);
                let made = first + rest;
                assert(made =~= seq![receiver_id] + rest);
                assert(ids(argument_values@) =~= made);
                assert(mutation@.handles() =~= made);
                lemma_accounts_then(
                    start,
                    retained,
                    heap@,
                    Seq::empty(),
                    first,
                    Seq::empty(),
                    rest,
                );
                assert(Seq::<u64>::empty() + Seq::<u64>::empty() =~= Seq::<u64>::empty());
                assert forall|id: u64|
                    #![trigger count(locals + made, id)]
                    #![trigger count(locals, id)]
                    count(made, id) + count(locals, id) == count(locals + made, id) + count(
                        Seq::<u64>::empty(),
                        id,
                    ) by {
                    lemma_count_concat(locals, made, id);
                }
                lemma_accounts_balance(start, heap@, Seq::empty(), made, locals, locals + made);
            }
            mutation
        },
        Instruction::Return { result } => {
            let ghost result_id = locals[result.0 as int];
            proof {
                assert(rooted(start, result_id));
                lemma_accounts_retain(start, start, Seq::empty(), Seq::empty(), result_id);
            }
            let value = local_variables[result.0 as usize].retain(heap);
            let mutation = CallStackMutation {
                jump: program_counter,
                exit: Some(value),
                call: None,
            };
            proof {
                let made = Seq::<u64>::empty().push(result_id);
                assert(mutation@.handles() =~= made);
                assert forall|id: u64|
                    #![trigger count(locals + made, id)]
                    #![trigger count(locals, id)]
                    count(made, id) + count(locals, id) == count(locals + made, id) + count(
                        Seq::<u64>::empty(),
                        id,
                    ) by {
                    lemma_count_concat(locals, made, id);
                }
                lemma_accounts_balance(start, heap@, Seq::empty(), made, locals, locals + made);
            }
            mutation
        },
    }
}

/// Interpreting an instruction invents no handle: the local variables
/// stay as many, every handle afterwards refers to a datum that a local
/// variable held before, and to no datum are there more handles than there
/// were and the instruction creates.
pub proof fn lemma_interpreted_handles(heap: Seq<Record>, pc: CounterView, locals: Seq<u64>)
    requires
        pc.in_bounds(),
        pc.current().touches_within(locals.len()),
    ensures
        interpreted(heap, pc, locals).0.len() == locals.len(),
        forall|k: int|
            0 <= k < locals.len() ==> locals.contains(#[trigger] interpreted(heap, pc, locals).0[k]),
        forall|k: int|
            0 <= k < interpreted(heap, pc, locals).1.handles().len() ==> locals.contains(
                #[trigger] interpreted(heap, pc, locals).1.handles()[k],
            ),
        forall|id: u64|
            #![trigger count(locals, id)]
            count(interpreted(heap, pc, locals).0 + interpreted(heap, pc, locals).1.handles(), id)
                <= count(locals, id) + pc.current().handles(),
{
    let (after, mutation) = interpreted(heap, pc, locals);
    let carried = mutation.handles();
    assert forall|k: int| 0 <= k < locals.len() implies locals.contains(#[trigger] after[k]) by {
        match pc.current() {
            Instruction::Copy { from, to } => {
                if k == to.0 {
                    assert(locals[from.0 as int] == after[k]);
                } else {
                    assert(locals[k] == after[k]);
                }
            },
            _ => {
                assert(locals[k] == after[k]);
            },
        }
    }
    assert forall|k: int| 0 <= k < carried.len() implies locals.contains(#[trigger] carried[k]) by {
        match pc.current() {
            Instruction::Copy { from, to } => {},
            Instruction::InvokeStatic { arguments, .. } => {
                assert(carried =~= gathered(locals, arguments@));
                assert(locals[arguments@[k].0 as int] == carried[k]);
            },
            Instruction::InvokeDynamic { receiver, arguments, .. } => {
                assert(carried =~= seq![locals[receiver.0 as int]] + gathered(locals, arguments@));
                if k == 0 {
                    assert(locals[receiver.0 as int] == carried[k]);
                } else {
                    assert(locals[arguments@[k - 1].0 as int] == carried[k]);
                }
            },
            Instruction::Return { result } => {
                assert(carried =~= seq![locals[result.0 as int]]);
                assert(locals[result.0 as int] == carried[k]);
            },
        }
    }
    assert forall|id: u64|
        #![trigger count(locals, id)]
        count(after + carried, id) <= count(locals, id) + pc.current().handles() by {
        lemma_count_concat(after, carried, id);
        lemma_count_bounds(carried, id);
        match pc.current() {
            Instruction::Copy { from, to } => {
                lemma_count_update(locals, to.0 as int, locals[from.0 as int], id);
                assert(carried =~= Seq::<u64>::empty());
            },
            Instruction::InvokeStatic { arguments, .. } => {
                assert(carried =~= gathered(locals, arguments@));
            },
            Instruction::InvokeDynamic { receiver, arguments, .. } => {
                assert(carried =~= seq![locals[receiver.0 as int]] + gathered(locals, arguments@));
            },
            Instruction::Return { result } => {
                assert(carried =~= seq![locals[result.0 as int]]);
            },
        }
    }
}

} // verus!
