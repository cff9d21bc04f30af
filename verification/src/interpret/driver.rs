//! The driver: how the mutation that an instruction asks for is applied to
//! the call stack, and how a call stack executes one step.

use crate::datum::Datum;
use crate::datum::handles::accounts;
use crate::datum::handles::count;
use crate::datum::handles::covers;
use crate::datum::handles::headroom;
use crate::datum::handles::lemma_accounts_balance;
use crate::datum::handles::lemma_accounts_nothing;
use crate::datum::handles::lemma_accounts_record;
use crate::datum::handles::lemma_accounts_release;
use crate::datum::handles::lemma_accounts_then;
use crate::datum::handles::lemma_accounts_valid;
use crate::datum::handles::lemma_count_bounds;
use crate::datum::handles::lemma_count_concat;
use crate::datum::handles::lemma_count_push;
use crate::datum::handles::lemma_count_update;
use crate::datum::handles::lemma_covers_made;
use crate::datum::handles::lemma_covers_part;
use crate::datum::handles::lemma_covers_released;
use crate::datum::handles::lemma_covers_rooted;
use crate::datum::handles::lemma_covers_same;
use crate::datum::handles::lemma_covers_split;
use crate::datum::handles::rooted;
use crate::datum::heap::release_all;
use crate::datum::Heap;
use crate::datum::ids;
use crate::datum::on_heap;
use crate::datum::record;
use crate::datum::Record;
use crate::datum::valid_heap;
use crate::spell::Spell;
use crate::spell::SpellId;
use crate::spell::Spells;
use crate::spell::valid_spells;
use super::Call;
use super::call_stack::CallStack;
use super::call_stack::entered;
use super::call_stack::FrameView;
use super::call_stack::handles_of;
use super::call_stack::lemma_handles_active;
use super::call_stack::lemma_handles_push;
use super::call_stack::padding;
use super::call_stack::ProgramCounter;
use super::call_stack::StackFrame;
use super::call_stack::valid_frame;
use super::call_stack::valid_stack;
use super::CallStackMutation;
use super::interpret_instruction;
use super::interpreted;
use super::lemma_interpreted_handles;
use super::MutationView;
use super::store;
use vstd::prelude::*;

verus! {

/// This error is returned when a call names a spell that the spell database
/// does not hold.
#[derive(Debug)]
pub struct MissingSpellError {
    /// The identity of the spell that is missing.
    pub callee: SpellId,
}

/// The call stack after the active frame has returned `value`: the frame is
/// gone, and its caller, if there is one, holds the value in the local
/// variable that the frame named.
pub open spec fn returned_to(frames: Seq<FrameView>, value: u64) -> Seq<FrameView> {
    let callers = frames.drop_last();
    if callers.len() == 0 {
        callers
    } else {
        callers.update(
            callers.len() - 1,
            FrameView {
                local_variables: callers.last().local_variables.update(
                    frames.last().return_into.0 as int,
                    value,
                ),
                ..callers.last()
            },
        )
    }
}

/// What applying a mutation does to a call stack: the call stack
/// afterwards, and how execution goes on. It goes on with the next
/// instruction (`Ok(None)`), ends with a value (`Ok(Some(..))`), or fails
/// because the spell to call is missing.
pub open spec fn applied(
    frames: Seq<FrameView>,
    spells: Map<SpellId, Spell>,
    mutation: MutationView,
    empty: u64,
) -> (Seq<FrameView>, Result<Option<u64>, SpellId>) {
    let active = frames.last();
    let jumped = frames.update(
        frames.len() - 1,
        FrameView { program_counter: mutation.jump, ..active },
    );
    match mutation.call {
        Some(call) => if spells.contains_key(call.callee) {
            match mutation.exit {
                Some(_) => (
                    frames.drop_last().push(
                        entered(spells[call.callee], call.arguments, active.return_into, empty),
                    ),
                    Ok(None),
                ),
                None => (
                    jumped.push(
                        entered(spells[call.callee], call.arguments, call.return_into, empty),
                    ),
                    Ok(None),
                ),
            }
        } else {
            (jumped, Err(call.callee))
        },
        None => match mutation.exit {
            Some(value) => (
                returned_to(frames, value),
                if frames.len() == 1 {
                    Ok(Some(value))
                } else {
                    Ok(None)
                },
            ),
            None => (jumped, Ok(None)),
        },
    }
}

/// Whether a mutation can be applied to a call stack: there is an active
/// frame, the arguments of a call fit into the frame of the callee, and the
/// local variable that takes a returned value exists.
pub open spec fn can_apply(
    frames: Seq<FrameView>,
    spells: Map<SpellId, Spell>,
    mutation: MutationView,
) -> bool {
    &&& frames.len() > 0
    &&& (mutation.call matches Some(call) ==> (spells.contains_key(call.callee)
        ==> call.arguments.len() <= spells[call.callee].local_variables))
    &&& (mutation.exit is Some && mutation.call is None && frames.len() >= 2
        ==> frames.last().return_into.0 < frames[frames.len() - 2].local_variables.len())
}

/// The number of handles to the datum `empty` that applying a mutation
/// creates: one for each local variable of a new frame that holds no
/// argument.
pub open spec fn padded(spells: Map<SpellId, Spell>, mutation: MutationView) -> nat {
    match mutation.call {
        Some(call) => if spells.contains_key(call.callee) {
            (spells[call.callee].local_variables - call.arguments.len()) as nat
        } else {
            0
        },
        None => 0,
    }
}

/// How applying a mutation ended, with the returned handle known by the
/// datum it refers to.
pub open spec fn outcome(result: Result<Option<Datum>, MissingSpellError>) -> Result<
    Option<u64>,
    SpellId,
> {
    match result {
        Ok(Some(value)) => Ok(Some(value.id())),
        Ok(None) => Ok(None),
        Err(error) => Err(error.callee),
    }
}

/// The handle that applying a mutation handed out, if any.
pub open spec fn handed_out(result: Result<Option<Datum>, MissingSpellError>) -> Seq<u64> {
    match result {
        Ok(Some(value)) => seq![value.id()],
        _ => Seq::empty(),
    }
}

/// The call stack once the active frame has interpreted its next
/// instruction, and the mutation that this asks for.
pub open spec fn executed(frames: Seq<FrameView>, heap: Seq<Record>) -> (
    Seq<FrameView>,
    MutationView,
) {
    let active = frames.last();
    let (locals, mutation) = interpreted(
        heap,
        active.program_counter,
        active.local_variables,
    );
    (frames.update(frames.len() - 1, FrameView { local_variables: locals, ..active }), mutation)
}

/// What one step does to a call stack: the active frame interprets its next
/// instruction, and the mutation is applied.
pub open spec fn stepped(
    frames: Seq<FrameView>,
    spells: Map<SpellId, Spell>,
    heap: Seq<Record>,
    empty: u64,
) -> (Seq<FrameView>, Result<Option<u64>, SpellId>) {
    applied(executed(frames, heap).0, spells, executed(frames, heap).1, empty)
}

/// The most handles to one datum that one step creates: those of the
/// instruction, and the padding of a new frame.
pub open spec fn step_handles(
    frames: Seq<FrameView>,
    spells: Map<SpellId, Spell>,
    heap: Seq<Record>,
) -> nat {
    frames.last().program_counter.current().handles() + padded(spells, executed(frames, heap).1)
}

/// The handle of a returned value, or none.
pub open spec fn value_of(exit: Option<Datum>) -> Seq<u64> {
    match exit {
        Some(value) => seq![value.id()],
        None => Seq::empty(),
    }
}

/// The handles of a tail call, with those of the frame that returns first.
proof fn lemma_tail_call_order(kept: Seq<u64>, left: Seq<u64>, value: Seq<u64>, fresh: Seq<u64>)
    ensures
        forall|id: u64|
            count(kept + left + value + fresh, id) == #[trigger] count(
                left + (value + (kept + fresh)),
                id,
            ),
{
    assert forall|id: u64|
        count(kept + left + value + fresh, id) == #[trigger] count(
            left + (value + (kept + fresh)),
            id,
        ) by {
        lemma_count_concat(kept + left + value, fresh, id);
        lemma_count_concat(kept + left, value, id);
        lemma_count_concat(kept, left, id);
        lemma_count_concat(left, value + (kept + fresh), id);
        lemma_count_concat(value, kept + fresh, id);
        lemma_count_concat(kept, fresh, id);
    }
}

/// A tail call gives up the handles of the frame that returns and the
/// returned value, and keeps the others.
proof fn lemma_tail_call_balance(kept: Seq<u64>, left: Seq<u64>, value: Seq<u64>, fresh: Seq<u64>)
    ensures
        forall|id: u64|
            #![trigger count(kept + fresh, id)]
            #![trigger count(kept + left + value + fresh, id)]
            count(Seq::<u64>::empty() + Seq::<u64>::empty(), id) + count(
                kept + left + value + fresh,
                id,
            ) == count(kept + fresh, id) + count(left + value, id),
{
    assert forall|id: u64|
        #![trigger count(kept + fresh, id)]
        #![trigger count(kept + left + value + fresh, id)]
        count(Seq::<u64>::empty() + Seq::<u64>::empty(), id) + count(
            kept + left + value + fresh,
            id,
        ) == count(kept + fresh, id) + count(left + value, id) by {
        lemma_count_concat(kept + left + value, fresh, id);
        lemma_count_concat(kept + left, value, id);
        lemma_count_concat(kept, left, id);
        lemma_count_concat(kept, fresh, id);
        lemma_count_concat(left, value, id);
        assert(Seq::<u64>::empty() + Seq::<u64>::empty() =~= Seq::<u64>::empty());
    }
}

/// The handles of a call, with the arguments next to the padding.
proof fn lemma_call_order(held: Seq<u64>, value: Seq<u64>, given: Seq<u64>, filled: Seq<u64>)
    ensures
        forall|id: u64|
            count(held + (value + given) + filled, id) == #[trigger] count(
                held + value + (given + filled),
                id,
            ),
{
    assert forall|id: u64|
        count(held + (value + given) + filled, id) == #[trigger] count(
            held + value + (given + filled),
            id,
        ) by {
        lemma_count_concat(held + (value + given), filled, id);
        lemma_count_concat(held, value + given, id);
        lemma_count_concat(value, given, id);
        lemma_count_concat(held + value, given + filled, id);
        lemma_count_concat(held, value, id);
        lemma_count_concat(given, filled, id);
    }
}

/// A call makes the padding of the new frame.
proof fn lemma_call_balance(
    held: Seq<u64>,
    value: Seq<u64>,
    given: Seq<u64>,
    filled: Seq<u64>,
    now: Seq<u64>,
)
    ensures
        forall|id: u64|
            #![trigger count(now, id)]
            #![trigger count(held + (value + given), id)]
            count(filled + now, id) + count(held + (value + given), id) == count(now, id) + count(
                Seq::<u64>::empty() + (held + value + (given + filled)),
                id,
            ),
{
    assert forall|id: u64|
        #![trigger count(now, id)]
        #![trigger count(held + (value + given), id)]
        count(filled + now, id) + count(held + (value + given), id) == count(now, id) + count(
            Seq::<u64>::empty() + (held + value + (given + filled)),
            id,
        ) by {
        lemma_count_concat(filled, now, id);
        lemma_count_concat(held, value + given, id);
        lemma_count_concat(value, given, id);
        lemma_count_concat(Seq::<u64>::empty(), held + value + (given + filled), id);
        lemma_count_concat(held + value, given + filled, id);
        lemma_count_concat(held, value, id);
        lemma_count_concat(given, filled, id);
    }
}

/// A call of a missing spell gives up what came with the call.
proof fn lemma_missing_balance(held: Seq<u64>, value: Seq<u64>, given: Seq<u64>)
    ensures
        forall|id: u64|
            #![trigger count(held, id)]
            #![trigger count(held + (value + given), id)]
            count(Seq::<u64>::empty() + Seq::<u64>::empty(), id) + count(
                held + (value + given),
                id,
            ) == count(held, id) + count(value + given, id),
        forall|id: u64|
            count(held + (value + given), id) == #[trigger] count((value + given) + held, id),
{
    assert forall|id: u64|
        #![trigger count(held, id)]
        #![trigger count(held + (value + given), id)]
        count(Seq::<u64>::empty() + Seq::<u64>::empty(), id) + count(held + (value + given), id)
            == count(held, id) + count(value + given, id) by {
        lemma_count_concat(held, value + given, id);
        assert(Seq::<u64>::empty() + Seq::<u64>::empty() =~= Seq::<u64>::empty());
    }
    assert forall|id: u64|
        count(held + (value + given), id) == #[trigger] count((value + given) + held, id) by {
        lemma_count_concat(held, value + given, id);
        lemma_count_concat(value + given, held, id);
    }
}

/// Where some of the handles that a heap accounted for are given up and
/// none is made, the heap accounts for what is left.
proof fn lemma_covers_kept(
    before: Seq<Record>,
    now: Seq<Record>,
    all: Seq<u64>,
    given_up: Seq<u64>,
    left: Seq<u64>,
)
    requires
        valid_heap(before),
        covers(before, all),
        accounts(before, now, given_up, Seq::empty()),
        forall|id: u64|
            #![trigger count(left, id)]
            #![trigger count(all, id)]
            count(Seq::<u64>::empty(), id) + count(all, id) == count(left, id) + count(
                given_up,
                id,
            ),
    ensures
        covers(now, left),
{
    assert forall|k: int| 0 <= k < left.len() implies count(given_up, #[trigger] left[k]) + count(
        left,
        left[k],
    ) <= count(all, left[k]) + count(Seq::<u64>::empty(), left[k]) by {
        let id = left[k];
        assert(count(Seq::<u64>::empty(), id) + count(all, id) == count(left, id) + count(
            given_up,
            id,
        ));
    }
    lemma_covers_part(before, now, all, given_up, Seq::empty(), left);
}

/// Valid code never leaves its frame: on a valid call stack with valid
/// spells, the mutation that the next instruction asks for can be applied,
/// and where execution goes on, the call stack is valid again.
pub proof fn lemma_step_valid(
    frames: Seq<FrameView>,
    spells: Map<SpellId, Spell>,
    heap: Seq<Record>,
    empty: u64,
)
    requires
        frames.len() > 0,
        valid_stack(frames),
        valid_spells(spells),
        executed(frames, heap).1.call matches Some(call) ==> call.callee.arity
            == call.arguments.len(),
    ensures
        frames.last().program_counter.current().touches_within(
            frames.last().local_variables.len(),
        ),
        can_apply(executed(frames, heap).0, spells, executed(frames, heap).1),
        stepped(frames, spells, heap, empty).1 == Ok::<Option<u64>, SpellId>(None) ==> valid_stack(
            stepped(frames, spells, heap, empty).0,
        ) && stepped(frames, spells, heap, empty).0.len() > 0,
{
    let active = frames.last();
    let top = frames.len() - 1;
    assert(valid_frame(frames[top]));
    let pc = active.program_counter;
    let instruction = pc.current();
    assert(instruction.fits(active.local_variables.len()));
    lemma_interpreted_handles(heap, pc, active.local_variables);
    let (run, mutation) = executed(frames, heap);
    let (after, result) = stepped(frames, spells, heap, empty);
    if frames.len() >= 2 {
        assert(valid_frame(frames[top - 1]));
        assert(run[top - 1] == frames[top - 1]);
    }
    if result == Ok::<Option<u64>, SpellId>(None) {
        assert forall|i: int| 0 <= i < after.len() implies valid_frame(#[trigger] after[i]) && (i
            >= 1 ==> after[i].return_into.0 < after[i - 1].local_variables.len()) by {
            if i < top - 1 {
                assert(valid_frame(frames[i]));
                assert(after[i] == frames[i]);
                if i >= 1 {
                    assert(after[i - 1] == frames[i - 1]);
                }
            } else if i == top - 1 {
                assert(valid_frame(frames[i]));
                if i >= 1 {
                    assert(valid_frame(frames[i - 1]));
                    assert(after[i - 1] == frames[i - 1]);
                }
            } else if i == top {
                assert(valid_frame(frames[i]));
                if i >= 1 {
                    assert(valid_frame(frames[i - 1]));
                    assert(after[i - 1] == frames[i - 1]);
                }
            } else {
                assert(i == top + 1);
                let call = mutation.call->Some_0;
                assert(spells[call.callee].valid(call.callee.arity as nat));
            }
        }
    }
}

/// The heap accounts for the handles of a call stack and a mutation once
/// the active frame has interpreted an instruction.
proof fn lemma_step_covers(
    before: Seq<Record>,
    now: Seq<Record>,
    kept: Seq<u64>,
    locals: Seq<u64>,
    after: Seq<u64>,
    carried: Seq<u64>,
)
    requires
        valid_heap(before),
        covers(before, kept + locals),
        accounts(before, now, locals, after + carried),
        forall|k: int| 0 <= k < after.len() ==> locals.contains(#[trigger] after[k]),
        forall|k: int| 0 <= k < carried.len() ==> locals.contains(#[trigger] carried[k]),
    ensures
        covers(now, (kept + after) + carried),
{
    let made = after + carried;
    let part = (kept + after) + carried;
    lemma_covers_split(before, kept, locals);
    assert forall|k: int| 0 <= k < made.len() implies on_heap(before, #[trigger] made[k]) by {
        let id = made[k];
        if k < after.len() {
            assert(after[k] == id);
        } else {
            assert(carried[k - after.len()] == id);
        }
        let j = choose|j: int| 0 <= j < locals.len() && locals[j] == id;
        assert(on_heap(before, locals[j]));
    }
    assert forall|k: int| 0 <= k < part.len() implies count(locals, #[trigger] part[k]) + count(
        part,
        part[k],
    ) <= count(kept + locals, part[k]) + count(made, part[k]) by {
        let id = part[k];
        lemma_count_concat(kept + after, carried, id);
        lemma_count_concat(kept, after, id);
        lemma_count_concat(kept, locals, id);
        lemma_count_concat(after, carried, id);
    }
    lemma_covers_part(before, now, kept + locals, locals, made, part);
}

/// One step gives up and makes what interpreting and applying do together.
proof fn lemma_step_accounts(
    before: Seq<Record>,
    between: Seq<Record>,
    now: Seq<Record>,
    kept: Seq<u64>,
    locals: Seq<u64>,
    after: Seq<u64>,
    carried: Seq<u64>,
    held: Seq<u64>,
)
    requires
        accounts(before, between, locals, after + carried),
        accounts(between, now, (kept + after) + carried, held),
    ensures
        accounts(before, now, kept + locals, held),
{
    lemma_accounts_then(before, between, now, locals, after + carried, (kept + after) + carried, held);
    assert forall|id: u64|
        #![trigger count(held, id)]
        #![trigger count(kept + locals, id)]
        count((after + carried) + held, id) + count(kept + locals, id) == count(held, id) + count(
            locals + ((kept + after) + carried),
            id,
        ) by {
        lemma_count_concat(after + carried, held, id);
        lemma_count_concat(after, carried, id);
        lemma_count_concat(kept, locals, id);
        lemma_count_concat(locals, (kept + after) + carried, id);
        lemma_count_concat(kept + after, carried, id);
        lemma_count_concat(kept, after, id);
    }
    lemma_accounts_balance(
        before,
        now,
        locals + ((kept + after) + carried),
        (after + carried) + held,
        kept + locals,
        held,
    );
}

/// Give up the handle of a returned value, if there is one.
fn release_value(heap: &mut Heap, exit: Option<Datum>)
    requires
        old(heap).wf(),
        covers(old(heap)@, value_of(exit)),
    ensures
        final(heap).wf(),
        final(heap).allocated() == old(heap).allocated(),
        accounts(old(heap)@, final(heap)@, value_of(exit), Seq::empty()),
{
    proof {
        lemma_accounts_nothing(heap@);
    }
    match exit {
        Some(value) => {
            proof {
                let id = value.id();
                lemma_covers_rooted(heap@, value_of(exit));
                assert(value_of(exit)[0] == id);
                lemma_accounts_release(heap@, heap@, Seq::empty(), Seq::empty(), id);
                assert(value_of(exit) =~= Seq::<u64>::empty().push(id));
            }
            value.release(heap);
        },
        None => {},
    }
}

impl<'a> CallStack<'a> {
    /// Record a jump in the active frame.
    fn record(&mut self, jump: ProgramCounter<'a>)
        requires
            old(self)@.len() > 0,
        ensures
            final(self)@ == old(self)@.update(
                old(self)@.len() - 1,
                FrameView { program_counter: jump@, ..old(self)@.last() },
            ),
            handles_of(final(self)@) == handles_of(old(self)@),
    {
        let top = self.stack_frames.len() - 1;
        let ghost before = self.stack_frames@;
        self.stack_frames[top].program_counter = jump;
        proof {
            let frames = old(self)@;
            let jumped = frames.update(
                frames.len() - 1,
                FrameView { program_counter: jump@, ..frames.last() },
            );
            assert(self.stack_frames@[top as int].local_variables == before[top as
                int].local_variables);
            assert(self.stack_frames@[top as int].return_into == before[top as int].return_into);
            assert forall|j: int| 0 <= j < before.len() && j != top implies (
            #[trigger] self.stack_frames@[j]) == before[j] by {}
            assert(self@ =~= jumped);
            lemma_handles_active(frames, jumped.last());
        }
    }

    /// The active frame returns `value`: the frame is given up, and the
    /// value goes into the local variable of the caller that the frame
    /// named. Where there is no caller, the value is handed out.
    fn leave(&mut self, heap: &mut Heap, value: Datum) -> (handed: Option<Datum>)
        requires
            old(heap).wf(),
            old(self)@.len() > 0,
            covers(old(heap)@, handles_of(old(self)@) + seq![value.id()]),
            old(self)@.len() >= 2 ==> old(self)@.last().return_into.0 < old(self)@[old(self)@.len()
                - 2].local_variables.len(),
        ensures
            final(heap).wf(),
            final(heap).allocated() == old(heap).allocated(),
            final(self)@ == returned_to(old(self)@, value.id()),
            handed == (if old(self)@.len() == 1 {
                Some(value)
            } else {
                None
            }),
            accounts(
                old(heap)@,
                final(heap)@,
                handles_of(old(self)@) + seq![value.id()],
                handles_of(final(self)@) + value_of(handed),
            ),
            covers(final(heap)@, handles_of(final(self)@) + value_of(handed)),
    {
        let ghost start = heap@;
        let ghost frames = self@;
        let ghost callers = frames.drop_last();
        let ghost all = handles_of(frames) + seq![value.id()];
        let ghost left = frames.last().local_variables;
        let ghost v = value.id();
        let exited = self.stack_frames.pop().unwrap();
        let return_into = exited.return_into;
        proof {
            assert(self@ =~= callers);
            assert(exited@ == frames.last());
            lemma_accounts_nothing(start);
            assert forall|k: int| 0 <= k < left.len() implies count(
                Seq::<u64>::empty(),
                #[trigger] left[k],
            ) + count(left, left[k]) <= count(all, left[k]) + count(
                Seq::<u64>::empty(),
                left[k],
            ) by {
                let id = left[k];
                lemma_count_concat(handles_of(frames), seq![v], id);
                lemma_count_concat(handles_of(callers), left, id);
            }
            lemma_covers_part(start, start, all, Seq::empty(), Seq::empty(), left);
        }
        exited.release(heap);
        let ghost released = heap@;
        if self.stack_frames.len() == 0 {
            proof {
                assert(handles_of(self@) =~= Seq::<u64>::empty());
                assert(handles_of(callers) =~= Seq::<u64>::empty());
                assert forall|id: u64|
                    #![trigger count(handles_of(self@) + seq![v], id)]
                    #![trigger count(all, id)]
                    count(Seq::<u64>::empty(), id) + count(all, id) == count(
                        handles_of(self@) + seq![v],
                        id,
                    ) + count(left, id) by {
                    lemma_count_concat(handles_of(frames), seq![v], id);
                    lemma_count_concat(handles_of(callers), left, id);
                    lemma_count_concat(handles_of(self@), seq![v], id);
                }
                lemma_accounts_balance(
                    start,
                    heap@,
                    left,
                    Seq::empty(),
                    all,
                    handles_of(self@) + seq![v],
                );
                lemma_covers_kept(start, heap@, all, left, handles_of(self@) + seq![v]);
            }
            Some(value)
        } else {
            let caller = self.stack_frames.len() - 1;
            let ghost kept = callers.last().local_variables;
            let ghost at = return_into.0 as int;
            let ghost r = kept[at];
            let ghost held = self.stack_frames@;
            proof {
                assert(self@[caller as int] == callers.last());
                assert(frames[frames.len() - 2] == callers.last());
            }
            let replaced = store(
                self.stack_frames[caller].local_variables.as_mut_slice(),
                return_into.0 as usize,
                value,
            );
            proof {
                assert(replaced.id() == r);
                let stored = self.stack_frames@[caller as int];
                assert(stored.local_variables@ == held[caller as int].local_variables@.update(
                    at,
                    value,
                ));
                assert(ids(stored.local_variables@) =~= kept.update(at, v));
                assert(stored.program_counter == held[caller as int].program_counter);
                assert(stored.return_into == held[caller as int].return_into);
                assert(self.stack_frames@.len() == held.len());
                assert forall|j: int| 0 <= j < held.len() && j != caller implies (
                #[trigger] self.stack_frames@[j]) == held[j] by {}
                assert(self@ =~= returned_to(frames, v));
                let one = Seq::<u64>::empty().push(r);
                lemma_count_push(Seq::empty(), r, r);
                lemma_count_bounds(kept, r);
                assert(kept.contains(r));
                assert forall|k: int| 0 <= k < one.len() implies count(left, #[trigger] one[k])
                    + count(one, one[k]) <= count(all, one[k]) + count(
                    Seq::<u64>::empty(),
                    one[k],
                ) by {
                    lemma_count_concat(handles_of(frames), seq![v], r);
                    lemma_count_concat(handles_of(callers), left, r);
                    lemma_count_concat(handles_of(callers.drop_last()), kept, r);
                }
                lemma_covers_part(start, released, all, left, Seq::empty(), one);
                lemma_count_bounds(one, r);
                assert(one[0] == r);
                assert(rooted(released, r));
                lemma_accounts_release(start, released, left, Seq::empty(), r);
            }
            replaced.release(heap);
            proof {
                let now = handles_of(self@);
                lemma_handles_active(callers, self@.last());
                assert(self@.last().local_variables == kept.update(at, v));
                assert(now == handles_of(callers.drop_last()) + kept.update(at, v));
                assert forall|id: u64|
                    #![trigger count(now + Seq::<u64>::empty(), id)]
                    #![trigger count(all, id)]
                    count(Seq::<u64>::empty(), id) + count(all, id) == count(
                        now + Seq::<u64>::empty(),
                        id,
                    ) + count(left.push(r), id) by {
                    lemma_count_concat(handles_of(frames), seq![v], id);
                    lemma_count_concat(handles_of(callers), left, id);
                    lemma_count_concat(handles_of(callers.drop_last()), kept, id);
                    lemma_count_concat(handles_of(callers.drop_last()), kept.update(at, v), id);
                    lemma_count_concat(now, Seq::<u64>::empty(), id);
                    lemma_count_update(kept, at, v, id);
                    lemma_count_push(left, r, id);
                    lemma_count_push(Seq::empty(), v, id);
                    assert(seq![v] =~= Seq::<u64>::empty().push(v));
                }
                lemma_accounts_balance(
                    start,
                    heap@,
                    left.push(r),
                    Seq::empty(),
                    all,
                    now + Seq::<u64>::empty(),
                );
                lemma_covers_kept(start, heap@, all, left.push(r), now + Seq::<u64>::empty());
            }
            None
        }
    }

    /// A new frame becomes the active frame. Where a value is returned at
    /// the same time, this is a tail call: the new frame takes the place of
    /// the frame that was active, and will return to its caller, and the
    /// value is given up.
    fn enter(&mut self, heap: &mut Heap, frame: StackFrame<'a>, exit: Option<Datum>)
        requires
            old(heap).wf(),
            old(self)@.len() > 0,
            covers(
                old(heap)@,
                handles_of(old(self)@) + value_of(exit) + frame@.local_variables,
            ),
        ensures
            final(heap).wf(),
            final(heap).allocated() == old(heap).allocated(),
            final(self)@ == (match exit {
                Some(_) => old(self)@.drop_last().push(
                    FrameView { return_into: old(self)@.last().return_into, ..frame@ },
                ),
                None => old(self)@.push(frame@),
            }),
            accounts(
                old(heap)@,
                final(heap)@,
                handles_of(old(self)@) + value_of(exit) + frame@.local_variables,
                handles_of(final(self)@),
            ),
            covers(final(heap)@, handles_of(final(self)@)),
    {
        let ghost start = heap@;
        let ghost frames = self@;
        let ghost callers = frames.drop_last();
        let ghost left = frames.last().local_variables;
        let ghost kept = handles_of(callers);
        let ghost value = value_of(exit);
        let ghost fresh = frame@.local_variables;
        let ghost all = handles_of(frames) + value + fresh;
        let ghost given = frame@;
        let mut frame = frame;
        if exit.is_some() {
            let exited = self.stack_frames.pop().unwrap();
            frame.return_into = exited.return_into;
            proof {
                assert(self@ =~= callers);
                assert(exited@ == frames.last());
                lemma_tail_call_order(kept, left, value, fresh);
                lemma_covers_same(start, all, left + (value + (kept + fresh)));
                lemma_covers_split(start, left, value + (kept + fresh));
            }
            exited.release(heap);
            let ghost released = heap@;
            proof {
                lemma_covers_released(start, released, left, value + (kept + fresh));
                lemma_covers_split(released, value, kept + fresh);
            }
            release_value(heap, exit);
            self.stack_frames.push(frame);
            proof {
                let entered = FrameView { return_into: frames.last().return_into, ..given };
                assert(frame@ == entered);
                assert(self@ =~= callers.push(entered));
                lemma_handles_push(callers, entered);
                lemma_accounts_valid(start, released, left, Seq::empty());
                lemma_covers_released(released, heap@, value, kept + fresh);
                lemma_accounts_then(
                    start,
                    released,
                    heap@,
                    left,
                    Seq::empty(),
                    value,
                    Seq::empty(),
                );
                lemma_tail_call_balance(kept, left, value, fresh);
                lemma_accounts_balance(
                    start,
                    heap@,
                    left + value,
                    Seq::<u64>::empty() + Seq::<u64>::empty(),
                    all,
                    kept + fresh,
                );
            }
        } else {
            self.stack_frames.push(frame);
            proof {
                assert(self@ =~= frames.push(frame@));
                lemma_handles_push(frames, frame@);
                lemma_accounts_nothing(start);
                assert(value =~= Seq::<u64>::empty());
                assert(all =~= handles_of(frames) + fresh);
                lemma_accounts_balance(
                    start,
                    heap@,
                    Seq::empty(),
                    Seq::empty(),
                    all,
                    handles_of(frames) + fresh,
                );
            }
        }
    }

    /// Perform a call: look up the callee and make its frame the active
    /// frame. Where the callee is missing, give up the handles that came
    /// with the call.
    fn call(
        &mut self,
        heap: &mut Heap,
        spells: &'a Spells,
        call: Call,
        exit: Option<Datum>,
        empty: &Datum,
    ) -> (result: Result<(), MissingSpellError>)
        requires
            old(heap).wf(),
            old(self)@.len() > 0,
            covers(old(heap)@, handles_of(old(self)@) + (value_of(exit) + call@.arguments)),
            on_heap(old(heap)@, empty.id()),
            spells@.contains_key(call.callee) ==> call@.arguments.len()
                <= spells@[call.callee].local_variables && record(old(heap)@, empty.id()).roots + (
            spells@[call.callee].local_variables - call@.arguments.len()) <= usize::MAX,
        ensures
            final(heap).wf(),
            final(heap).allocated() == old(heap).allocated(),
            spells@.contains_key(call.callee) ==> result is Ok && final(self)@ == (match exit {
                Some(_) => old(self)@.drop_last().push(
                    entered(
                        spells@[call.callee],
                        call@.arguments,
                        old(self)@.last().return_into,
                        empty.id(),
                    ),
                ),
                None => old(self)@.push(
                    entered(spells@[call.callee], call@.arguments, call.return_into, empty.id()),
                ),
            }),
            !spells@.contains_key(call.callee) ==> result == Err::<(), MissingSpellError>(
                MissingSpellError { callee: call.callee },
            ) && final(self)@ == old(self)@,
            accounts(
                old(heap)@,
                final(heap)@,
                handles_of(old(self)@) + (value_of(exit) + call@.arguments),
                handles_of(final(self)@),
            ),
            covers(final(heap)@, handles_of(final(self)@)),
    {
        let ghost start = heap@;
        let ghost held = handles_of(self@);
        let ghost value = value_of(exit);
        let ghost given = call@.arguments;
        let ghost all = held + (value + given);
        let Call { callee, arguments, return_into } = call;
        match spells.get(callee) {
            Some(spell) => {
                let ghost slots = (spell.local_variables - given.len()) as nat;
                let ghost filled = padding(slots, empty.id());
                let frame = StackFrame::new(heap, spell, arguments, return_into, empty);
                let ghost made = heap@;
                proof {
                    lemma_covers_made(start, made, all, filled);
                    lemma_call_order(held, value, given, filled);
                    lemma_covers_same(made, all + filled, held + value + (given + filled));
                }
                self.enter(heap, frame, exit);
                proof {
                    let now = handles_of(self@);
                    lemma_accounts_then(
                        start,
                        made,
                        heap@,
                        Seq::empty(),
                        filled,
                        held + value + (given + filled),
                        now,
                    );
                    lemma_call_balance(held, value, given, filled, now);
                    lemma_accounts_balance(
                        start,
                        heap@,
                        Seq::<u64>::empty() + (held + value + (given + filled)),
                        filled + now,
                        all,
                        now,
                    );
                }
                Ok(())
            },
            None => {
                proof {
                    lemma_missing_balance(held, value, given);
                    lemma_covers_same(start, all, (value + given) + held);
                    lemma_covers_split(start, value + given, held);
                    lemma_covers_split(start, value, given);
                }
                release_value(heap, exit);
                let ghost released = heap@;
                proof {
                    lemma_covers_released(start, released, value, given);
                    lemma_accounts_valid(start, released, value, Seq::empty());
                }
                release_all(heap, arguments);
                proof {
                    lemma_accounts_then(
                        start,
                        released,
                        heap@,
                        value,
                        Seq::empty(),
                        given,
                        Seq::empty(),
                    );
                    lemma_covers_released(start, heap@, value + given, held);
                    lemma_accounts_balance(
                        start,
                        heap@,
                        value + given,
                        Seq::<u64>::empty() + Seq::<u64>::empty(),
                        all,
                        held,
                    );
                }
                Err(MissingSpellError { callee })
            },
        }
    }

    /// Apply to the call stack the mutation that interpreting an instruction
    /// of the active frame has asked for.
    ///
    /// First the jump is recorded in the active frame. Then, for a call, the
    /// callee is looked up in `spells` and a frame is made for it, with a
    /// new handle to the datum of `empty` in each local variable that holds
    /// no argument. Last, where a value is returned, the active frame is
    /// given up; the frame of a call takes its place, or else the value goes
    /// to the caller. [`applied`] says in full what becomes of the call
    /// stack.
    ///
    /// Returns `Ok(None)` where execution goes on and `Ok(Some(..))` with the
    /// returned value where the last frame has returned. Where the callee is
    /// missing, the handles of the mutation are given up and the error names
    /// the callee.
    pub fn apply(
        &mut self,
        heap: &mut Heap,
        spells: &'a Spells,
        mutation: CallStackMutation<'a>,
        empty: &Datum,
    ) -> (result: Result<Option<Datum>, MissingSpellError>)
        requires
            old(heap).wf(),
            can_apply(old(self)@, spells@, mutation@),
            covers(old(heap)@, handles_of(old(self)@) + mutation@.handles()),
            on_heap(old(heap)@, empty.id()),
            record(old(heap)@, empty.id()).roots + padded(spells@, mutation@) <= usize::MAX,
        ensures
            final(heap).wf(),
            final(heap).allocated() == old(heap).allocated(),
            (final(self)@, outcome(result)) == applied(
                old(self)@,
                spells@,
                mutation@,
                empty.id(),
            ),
            accounts(
                old(heap)@,
                final(heap)@,
                handles_of(old(self)@) + mutation@.handles(),
                handles_of(final(self)@) + handed_out(result),
            ),
            covers(final(heap)@, handles_of(final(self)@) + handed_out(result)),
            on_heap(final(heap)@, empty.id()),
    {
        let ghost frames = self@;
        let CallStackMutation { jump, exit, call } = mutation;
        self.record(jump);
        let ghost jumped = self@;
        match call {
            Some(call) => {
                proof {
                    assert(jumped.drop_last() =~= frames.drop_last());
                }
                match self.call(heap, spells, call, exit, empty) {
                    Ok(()) => {
                        proof {
                            assert(handles_of(self@) + Seq::<u64>::empty() =~= handles_of(self@));
                        }
                        Ok(None)
                    },
                    Err(error) => {
                        proof {
                            assert(handles_of(self@) + Seq::<u64>::empty() =~= handles_of(self@));
                        }
                        Err(error)
                    },
                }
            },
            None => {
                match exit {
                    Some(value) => {
                        proof {
                            assert(mutation@.handles() =~= seq![value.id()]);
                            assert(returned_to(jumped, value.id()) =~= returned_to(
                                frames,
                                value.id(),
                            ));
                            if frames.len() >= 2 {
                                assert(jumped[jumped.len() - 2] == frames[frames.len() - 2]);
                            }
                        }
                        match self.leave(heap, value) {
                            Some(value) => Ok(Some(value)),
                            None => Ok(None),
                        }
                    },
                    None => {
                        proof {
                            assert(mutation@.handles() =~= Seq::<u64>::empty());
                            assert(handles_of(frames) + Seq::<u64>::empty() =~= handles_of(frames));
                            lemma_accounts_nothing(heap@);
                        }
                        Ok(None)
                    },
                }
            },
        }
    }

    /// Execute one instruction: the active frame interprets its next
    /// instruction, and the mutation that this asks for is applied to the
    /// call stack.
    ///
    /// Returns what [`CallStack::apply`] returns. Where it is `Ok(None)`,
    /// the call stack is fit for the next step.
    pub fn step(&mut self, heap: &mut Heap, spells: &'a Spells, empty: &Datum) -> (result: Result<
        Option<Datum>,
        MissingSpellError,
    >)
        requires
            old(heap).wf(),
            old(self)@.len() > 0,
            valid_stack(old(self)@),
            valid_spells(spells@),
            covers(old(heap)@, handles_of(old(self)@)),
            on_heap(old(heap)@, empty.id()),
            headroom(
                old(heap)@,
                old(self)@.last().local_variables + seq![empty.id()],
                step_handles(old(self)@, spells@, old(heap)@),
            ),
        ensures
            final(heap).wf(),
            final(heap).allocated() == old(heap).allocated(),
            (final(self)@, outcome(result)) == stepped(
                old(self)@,
                spells@,
                old(heap)@,
                empty.id(),
            ),
            accounts(
                old(heap)@,
                final(heap)@,
                handles_of(old(self)@),
                handles_of(final(self)@) + handed_out(result),
            ),
            covers(final(heap)@, handles_of(final(self)@) + handed_out(result)),
            on_heap(final(heap)@, empty.id()),
            outcome(result) == Ok::<Option<u64>, SpellId>(None) ==> valid_stack(final(self)@)
                && final(self)@.len() > 0,
    {
        let ghost start = heap@;
        let ghost frames = self@;
        let ghost active = frames.last();
        let ghost kept = handles_of(frames.drop_last());
        let ghost locals = active.local_variables;
        let top = self.stack_frames.len() - 1;
        let ghost before = self.stack_frames@;
        let program_counter = self.stack_frames[top].program_counter;
        proof {
            assert(self@[top as int] == active);
            assert(valid_frame(frames[top as int]));
            assert(program_counter@.current().fits(locals.len()));
            lemma_covers_split(start, kept, locals);
            lemma_covers_rooted(start, locals);
            let bounded = locals + seq![empty.id()];
            assert forall|k: int| 0 <= k < locals.len() implies record(
                start,
                #[trigger] locals[k],
            ).roots + program_counter@.current().handles() <= usize::MAX by {
                assert(bounded[k] == locals[k]);
            }
            assert(bounded[locals.len() as int] == empty.id());
        }
        let mutation = interpret_instruction(
            heap,
            program_counter,
            self.stack_frames[top].local_variables.as_mut_slice(),
        );
        let ghost between = heap@;
        let ghost after = self@.last().local_variables;
        let ghost carried = mutation@.handles();
        proof {
            let run = executed(frames, start);
            assert(self.stack_frames@[top as int].program_counter == before[top as
                int].program_counter);
            assert(self.stack_frames@[top as int].return_into == before[top as int].return_into);
            assert forall|j: int| 0 <= j < before.len() && j != top implies (
            #[trigger] self.stack_frames@[j]) == before[j] by {}
            assert(self@ =~= run.0);
            assert(mutation@ == run.1);
            lemma_step_valid(frames, spells@, start, empty.id());
            lemma_interpreted_handles(start, program_counter@, locals);
            lemma_handles_active(frames, self@.last());
            lemma_step_covers(start, between, kept, locals, after, carried);
            lemma_accounts_record(start, between, locals, after + carried, empty.id());
            assert(count(after + carried, empty.id()) <= count(locals, empty.id())
                + program_counter@.current().handles());
        }
        let result = self.apply(heap, spells, mutation, empty);
        proof {
            lemma_accounts_valid(
                between,
                heap@,
                handles_of(executed(frames, start).0) + carried,
                handles_of(self@) + handed_out(result),
            );
            lemma_step_accounts(
                start,
                between,
                heap@,
                kept,
                locals,
                after,
                carried,
                handles_of(self@) + handed_out(result),
            );
        }
        result
    }
}

} // verus!
