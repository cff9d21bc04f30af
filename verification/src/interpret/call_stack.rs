//! The call stack: stack frames and program counters.

use crate::datum::Datum;
use crate::datum::handles::accounts;
use crate::datum::handles::covers;
use crate::datum::handles::lemma_accounts_nothing;
use crate::datum::handles::lemma_accounts_record;
use crate::datum::handles::lemma_accounts_retain;
use crate::datum::handles::lemma_count_bounds;
use crate::datum::heap::release_all;
use crate::datum::Heap;
use crate::datum::ids;
use crate::datum::on_heap;
use crate::datum::record;
use crate::datum::valid_heap;
use crate::spell::Instruction;
use crate::spell::is_valid_code;
use crate::spell::Local;
use crate::spell::Spell;
use crate::spell::valid_code;
use vstd::prelude::*;

verus! {

/// A call stack is a sequence of stack frames. The last one is the active
/// frame.
#[derive(Debug)]
pub struct CallStack<'a> {
    pub stack_frames: Vec<StackFrame<'a>>,
}

/// A stack frame consists of a program counter and local variables.
///
/// A stack frame represents an active spell invocation.
#[derive(Debug)]
pub struct StackFrame<'a> {
    pub program_counter: ProgramCounter<'a>,
    pub local_variables: Vec<Datum>,
    /// The local variable of the caller to store the result into when this
    /// invocation returns. On the bottom frame, which has no caller, the
    /// value of this field is irrelevant.
    pub return_into: Local,
}

/// A program counter points into the instructions of a spell, and tells the
/// interpreter which instruction comes next.
#[derive(Clone, Copy, Debug)]
pub struct ProgramCounter<'a> {
    pub instructions: &'a [Instruction],
    pub next_instruction: usize,
}

/// The model of a [`ProgramCounter`]: the instructions of the spell, and the
/// position of the one that comes next.
pub struct CounterView {
    pub instructions: Seq<Instruction>,
    pub next_instruction: nat,
}

impl CounterView {
    /// Whether the program counter points at an instruction.
    pub open spec fn in_bounds(self) -> bool {
        self.next_instruction < self.instructions.len()
    }

    /// The instruction that comes next.
    pub open spec fn current(self) -> Instruction {
        self.instructions[self.next_instruction as int]
    }

    /// The program counter that points at the instruction `target` of the
    /// same spell.
    pub open spec fn jumped(self, target: nat) -> CounterView {
        CounterView { instructions: self.instructions, next_instruction: target }
    }

    /// The program counter that points at the instruction after the next.
    pub open spec fn advanced(self) -> CounterView {
        self.jumped(self.next_instruction + 1)
    }
}

impl<'a> View for ProgramCounter<'a> {
    type V = CounterView;

    open spec fn view(&self) -> CounterView {
        CounterView {
            instructions: self.instructions@,
            next_instruction: self.next_instruction as nat,
        }
    }
}

impl<'a> ProgramCounter<'a> {
    /// Get the next instruction. The program counter must be in bounds.
    pub fn get(&self) -> (instruction: &'a Instruction)
        requires
            self@.in_bounds(),
        ensures
            *instruction == self@.current(),
    {
        &self.instructions[self.next_instruction]
    }

    /// Jump to the next instruction.
    pub fn advance(&self) -> (next: Self)
        requires
            self.next_instruction < usize::MAX,
        ensures
            next@ == self@.advanced(),
            next.instructions == self.instructions,
    {
        self.jump(self.next_instruction + 1)
    }

    /// Jump to an arbitrary instruction.
    pub fn jump(&self, target: usize) -> (next: Self)
        ensures
            next@ == self@.jumped(target as nat),
            next.instructions == self.instructions,
    {
        ProgramCounter { instructions: self.instructions, next_instruction: target }
    }
}

/// The model of a [`StackFrame`]: the handles in the local variables are
/// known by the data they refer to.
pub struct FrameView {
    pub program_counter: CounterView,
    pub local_variables: Seq<u64>,
    pub return_into: Local,
}

impl<'a> View for StackFrame<'a> {
    type V = FrameView;

    open spec fn view(&self) -> FrameView {
        FrameView {
            program_counter: self.program_counter@,
            local_variables: ids(self.local_variables@),
            return_into: self.return_into,
        }
    }
}

impl<'a> View for CallStack<'a> {
    type V = Seq<FrameView>;

    open spec fn view(&self) -> Seq<FrameView> {
        self.stack_frames@.map_values(|frame: StackFrame<'a>| frame@)
    }
}

/// The handles in the local variables of all the frames, the bottom frame's
/// first.
pub open spec fn handles_of(frames: Seq<FrameView>) -> Seq<u64>
    decreases frames.len(),
{
    if frames.len() == 0 {
        Seq::empty()
    } else {
        handles_of(frames.drop_last()) + frames.last().local_variables
    }
}

/// `slots` handles to the datum `empty`.
pub open spec fn padding(slots: nat, empty: u64) -> Seq<u64> {
    Seq::new(slots, |i: int| empty)
}

/// The frame of a new invocation of `spell`: the program counter at the
/// first instruction, the arguments in the first local variables, and the
/// datum `empty` in the others.
pub open spec fn entered(spell: Spell, arguments: Seq<u64>, return_into: Local, empty: u64)
    -> FrameView {
    FrameView {
        program_counter: CounterView { instructions: spell.instructions@, next_instruction: 0 },
        local_variables: arguments + padding(
            (spell.local_variables - arguments.len()) as nat,
            empty,
        ),
        return_into,
    }
}

/// Whether a frame can go on: its program counter points at an instruction,
/// and the code that it runs is valid for its local variables.
pub open spec fn valid_frame(frame: FrameView) -> bool {
    &&& frame.program_counter.in_bounds()
    &&& valid_code(frame.program_counter.instructions, frame.local_variables.len())
}

/// Whether a call stack can go on: every frame can, and every frame but the
/// bottom one names a local variable of its caller for its result.
pub open spec fn valid_stack(frames: Seq<FrameView>) -> bool {
    forall|i: int|
        0 <= i < frames.len() ==> {
            &&& valid_frame(#[trigger] frames[i])
            &&& (i >= 1 ==> frames[i].return_into.0 < frames[i - 1].local_variables.len())
        }
}

/// The handles of a call stack with one more frame are those of the call
/// stack, then those of the frame.
pub proof fn lemma_handles_push(frames: Seq<FrameView>, frame: FrameView)
    ensures
        handles_of(frames.push(frame)) == handles_of(frames) + frame.local_variables,
{
    assert(frames.push(frame).drop_last() =~= frames);
}

/// The handles of a call stack are those of the callers, then those of the
/// active frame, whatever else the active frame holds.
pub proof fn lemma_handles_active(frames: Seq<FrameView>, active: FrameView)
    requires
        frames.len() > 0,
    ensures
        handles_of(frames.update(frames.len() - 1, active)) == handles_of(frames.drop_last())
            + active.local_variables,
{
    assert(frames.update(frames.len() - 1, active).drop_last() =~= frames.drop_last());
}

impl<'a> StackFrame<'a> {
    /// Start an invocation of `spell`: the program counter points at its
    /// first instruction, the first local variables hold the arguments, and
    /// each of the others holds a new handle to the datum of `empty`.
    pub fn new(
        heap: &mut Heap,
        spell: &'a Spell,
        arguments: Vec<Datum>,
        return_into: Local,
        empty: &Datum,
    ) -> (frame: Self)
        requires
            old(heap).wf(),
            arguments@.len() <= spell.local_variables,
            on_heap(old(heap)@, empty.id()),
            record(old(heap)@, empty.id()).roots + (spell.local_variables - arguments@.len())
                <= usize::MAX,
        ensures
            final(heap).wf(),
            final(heap).allocated() == old(heap).allocated(),
            frame@ == entered(*spell, ids(arguments@), return_into, empty.id()),
            accounts(
                old(heap)@,
                final(heap)@,
                Seq::empty(),
                padding((spell.local_variables - arguments@.len()) as nat, empty.id()),
            ),
    {
        let ghost start = heap@;
        let ghost given = ids(arguments@);
        let mut local_variables = arguments;
        proof {
            lemma_accounts_nothing(start);
            assert(padding(0, empty.id()) =~= Seq::<u64>::empty());
            assert(ids(local_variables@) =~= given + padding(0, empty.id()));
        }
        while local_variables.len() < spell.local_variables
            invariant
                heap.wf(),
                heap.allocated() == old(heap).allocated(),
                start == old(heap)@,
                valid_heap(start),
                on_heap(start, empty.id()),
                given.len() <= local_variables@.len() <= spell.local_variables,
                record(start, empty.id()).roots + (spell.local_variables - given.len())
                    <= usize::MAX,
                ids(local_variables@) == given + padding(
                    (local_variables@.len() - given.len()) as nat,
                    empty.id(),
                ),
                accounts(
                    start,
                    heap@,
                    Seq::empty(),
                    padding((local_variables@.len() - given.len()) as nat, empty.id()),
                ),
            decreases spell.local_variables - local_variables@.len(),
        {
            let ghost filled = (local_variables@.len() - given.len()) as nat;
            let ghost made = padding(filled, empty.id());
            let ghost before = local_variables@;
            proof {
                lemma_accounts_record(start, heap@, Seq::empty(), made, empty.id());
                lemma_count_bounds(made, empty.id());
                lemma_accounts_retain(start, heap@, Seq::empty(), made, empty.id());
                assert(made.push(empty.id()) =~= padding(filled + 1, empty.id()));
            }
            let handle = empty.retain(heap);
            local_variables.push(handle);
            proof {
                assert(ids(local_variables@) =~= ids(before).push(empty.id()));
                assert(ids(local_variables@) =~= given + padding(filled + 1, empty.id()));
            }
        }
        StackFrame {
            program_counter: ProgramCounter {
                instructions: spell.instructions.as_slice(),
                next_instruction: 0,
            },
            local_variables,
            return_into,
        }
    }

    /// End an invocation: give up the handles in its local variables.
    pub fn release(self, heap: &mut Heap)
        requires
            old(heap).wf(),
            covers(old(heap)@, self@.local_variables),
        ensures
            final(heap).wf(),
            final(heap).allocated() == old(heap).allocated(),
            accounts(old(heap)@, final(heap)@, self@.local_variables, Seq::empty()),
    {
        release_all(heap, self.local_variables)
    }

    /// Check that the frame can go on: see [`valid_frame`].
    pub fn is_valid(&self) -> (valid: bool)
        ensures
            valid == valid_frame(self@),
    {
        self.program_counter.next_instruction < self.program_counter.instructions.len()
            && is_valid_code(self.program_counter.instructions, self.local_variables.len())
    }
}

impl<'a> CallStack<'a> {
    /// Check that the call stack can go on: see [`valid_stack`].
    pub fn is_valid(&self) -> (valid: bool)
        ensures
            valid == valid_stack(self@),
    {
        let mut i: usize = 0;
        while i < self.stack_frames.len()
            invariant
                i <= self.stack_frames@.len(),
                forall|j: int|
                    0 <= j < i ==> {
                        &&& valid_frame(#[trigger] self@[j])
                        &&& (j >= 1 ==> self@[j].return_into.0 < self@[j
                            - 1].local_variables.len())
                    },
            decreases self.stack_frames@.len() - i,
        {
            let frame = &self.stack_frames[i];
            assert(frame@ == self@[i as int]);
            if !frame.is_valid() {
                return false;
            }
            if i >= 1 {
                let caller = &self.stack_frames[i - 1];
                assert(caller@ == self@[i - 1]);
                if !frame.return_into.is_within(caller.local_variables.len()) {
                    return false;
                }
            }
            i += 1;
        }
        true
    }
}

} // verus!
