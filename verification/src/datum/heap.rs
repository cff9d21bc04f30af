//! The heap: allocation, root counting and garbage collection of data.

use crate::sigil::Sigil;
use super::Datum;
use super::DatumInner;
use super::handles::accounts;
use super::handles::count;
use super::handles::covers;
use super::handles::lemma_accounts_balance;
use super::handles::lemma_accounts_nothing;
use super::handles::lemma_accounts_record;
use super::handles::lemma_accounts_release;
use super::handles::lemma_count_bounds;
use super::handles::lemma_count_push;
use super::ids;
use super::lemma_position;
use super::lemma_with_roots;
use super::on_heap;
use super::ordered;
use super::position;
use super::reach::alive;
use super::reach::garbage;
use super::reach::lemma_freed_count;
use super::reach::lemma_pointee_reachable;
use super::reach::lemma_pointer_goes_back;
use super::reach::lemma_reachable_cause;
use super::reach::lemma_root_reachable;
use super::reach::lemma_survivor_unchanged;
use super::reach::lemma_survivors_valid;
use super::reach::reachable;
use super::reach::survivors;
use super::record;
use super::Record;
use super::valid_heap;
use super::with_roots;
use vstd::prelude::*;
use vstd::slice::slice_to_vec;

verus! {

/// A collection of data.
///
/// A heap provides for the creation and garbage collection of data. Its
/// model is the sequence of the [`Record`]s of its data, oldest first.
pub struct Heap {
    /// All data on the heap, in the order of their allocation. A datum only
    /// points to data that stand before it.
    data: Vec<DatumInner>,
    /// The number of data allocated so far, which is the identity that the
    /// next datum gets.
    allocated: u64,
}

/// Statistics on a single garbage collection.
#[derive(Clone, Copy, Debug)]
pub struct CollectStatistics {
    /// The number of data that were freed by this garbage collection.
    pub data_freed: usize,
}

/// The model of what the heap stores: the record of each datum.
spec fn records(data: Seq<DatumInner>) -> Seq<Record> {
    data.map_values(|inner: DatumInner| inner.record())
}

/// No datum carries a mark.
spec fn unmarked(data: Seq<DatumInner>) -> bool {
    forall|i: int| 0 <= i < data.len() ==> !(#[trigger] data[i]).mark
}

/// The datum at position `k` is reachable and points to the one at `j`.
spec fn marks(s: Seq<Record>, k: int, j: int) -> bool {
    reachable(s, s[k].id) && s[k].pointers.contains(s[j].id)
}

/// The mark that the datum at position `j` carries once the collector has
/// visited every position from `from` on: some reachable datum there points
/// to it.
spec fn pending(s: Seq<Record>, from: int, j: int) -> bool {
    exists|k: int| from <= k < s.len() && #[trigger] marks(s, k, j)
}

/// One of the first `k` pointers of the datum at position `at` names the
/// datum at position `j`.
spec fn pointed(s: Seq<Record>, at: int, k: int, j: int) -> bool {
    exists|q: int| 0 <= q < k && #[trigger] s[at].pointers[q] == s[j].id
}

/// When the collector reaches a datum, the datum is reachable exactly when
/// it is rooted or carries a mark.
proof fn lemma_mark_means_reachable(s: Seq<Record>, at: int)
    requires
        valid_heap(s),
        0 <= at < s.len(),
    ensures
        reachable(s, s[at].id) <==> (s[at].roots > 0 || pending(s, at + 1, at)),
{
    let id = s[at].id;
    lemma_position(s, at);
    if s[at].roots > 0 {
        lemma_root_reachable(s, id);
    }
    if pending(s, at + 1, at) {
        let k = choose|k: int| at + 1 <= k < s.len() && #[trigger] marks(s, k, at);
        lemma_position(s, k);
        lemma_pointee_reachable(s, s[k].id, id);
    }
    if reachable(s, id) && s[at].roots == 0 {
        lemma_reachable_cause(s, id);
        let from = choose|from: u64|
            reachable(s, from) && #[trigger] record(s, from).pointers.contains(id);
        lemma_reachable_cause(s, from);
        let k = position(s, from);
        lemma_position(s, k);
        lemma_pointer_goes_back(s, k, at);
        assert(marks(s, k, at));
    }
}

/// Visiting one more position adds the marks that the datum there gives.
proof fn lemma_pending_step(s: Seq<Record>, at: int, j: int)
    requires
        0 <= at < s.len(),
    ensures
        pending(s, at, j) <==> (pending(s, at + 1, j) || marks(s, at, j)),
{
    if pending(s, at, j) {
        let k = choose|k: int| at <= k < s.len() && #[trigger] marks(s, k, j);
        if k != at {
            assert(at + 1 <= k && marks(s, k, j));
        }
    }
    if pending(s, at + 1, j) {
        let k = choose|k: int| at + 1 <= k < s.len() && #[trigger] marks(s, k, j);
        assert(at <= k && marks(s, k, j));
    }
}

/// Following one more pointer adds the datum that it names.
proof fn lemma_pointed_step(s: Seq<Record>, at: int, k: int, j: int)
    requires
        0 <= k,
    ensures
        pointed(s, at, k + 1, j) <==> (pointed(s, at, k, j) || s[at].pointers[k] == s[j].id),
        !pointed(s, at, 0, j),
{
    if pointed(s, at, k + 1, j) {
        let q = choose|q: int| 0 <= q < k + 1 && #[trigger] s[at].pointers[q] == s[j].id;
        if q != k {
            assert(0 <= q < k && s[at].pointers[q] == s[j].id);
        }
    }
    if pointed(s, at, k, j) {
        let q = choose|q: int| 0 <= q < k && #[trigger] s[at].pointers[q] == s[j].id;
        assert(0 <= q < k + 1 && s[at].pointers[q] == s[j].id);
    }
    if s[at].pointers[k] == s[j].id {
        assert(0 <= k < k + 1 && s[at].pointers[k] == s[j].id);
    }
}

/// Visiting the datum at the end of a prefix: it joins the survivors of
/// the prefix exactly when it is alive.
proof fn lemma_sweep_step(s: Seq<Record>, n: int)
    requires
        0 < n <= s.len(),
    ensures
        s.take(n).filter(alive(s)) == (if reachable(s, s[n - 1].id) {
            s.take(n - 1).filter(alive(s)).push(s[n - 1])
        } else {
            s.take(n - 1).filter(alive(s))
        }),
{
    reveal(Seq::filter);
    assert(s.take(n).drop_last() =~= s.take(n - 1));
    assert(s.take(n).last() == s[n - 1]);
}

/// Before the first datum there is nothing to keep.
proof fn lemma_sweep_done(s: Seq<Record>)
    ensures
        s.take(0).filter(alive(s)) == Seq::<Record>::empty(),
{
    reveal(Seq::filter);
    assert(s.take(0).filter(alive(s)) =~= Seq::<Record>::empty());
}

/// All pointers of a datum taken together are what it points to.
proof fn lemma_pointed_all(s: Seq<Record>, at: int, j: int)
    ensures
        pointed(s, at, s[at].pointers.len() as int, j) == s[at].pointers.contains(s[j].id),
{
    if pointed(s, at, s[at].pointers.len() as int, j) {
        let q = choose|q: int|
            0 <= q < s[at].pointers.len() && #[trigger] s[at].pointers[q] == s[j].id;
        assert(s[at].pointers.contains(s[j].id));
    }
    if s[at].pointers.contains(s[j].id) {
        let q = choose|q: int| 0 <= q < s[at].pointers.len() && s[at].pointers[q] == s[j].id;
        assert(0 <= q < s[at].pointers.len() && s[at].pointers[q] == s[j].id);
    }
}

/// A prefix of an ordered heap is ordered.
proof fn lemma_prefix_ordered(s: Seq<Record>, n: int)
    requires
        ordered(s),
        0 <= n <= s.len(),
    ensures
        ordered(s.take(n)),
{
    assert forall|i: int, j: int| 0 <= i < j < s.take(n).len() implies (#[trigger] s.take(
        n,
    )[i]).id < (#[trigger] s.take(n)[j]).id by {
        assert(s[i].id < s[j].id);
    }
}

/// Pass the mark of a reachable datum on to the data that it points to.
///
/// `data` holds the data that stand before `datum` on the heap `s`, with the
/// marks that the data after `datum` have given them.
fn mark_pointees(data: &mut Vec<DatumInner>, datum: &DatumInner, Ghost(s): Ghost<Seq<Record>>)
    requires
        valid_heap(s),
        old(data)@.len() < s.len(),
        records(old(data)@) == s.take(old(data)@.len() as int),
        datum.record() == s[old(data)@.len() as int],
        reachable(s, datum.record().id),
        forall|j: int|
            0 <= j < old(data)@.len() ==> (#[trigger] old(data)@[j]).mark == pending(
                s,
                old(data)@.len() as int + 1,
                j,
            ),
    ensures
        final(data)@.len() == old(data)@.len(),
        records(final(data)@) == records(old(data)@),
        forall|j: int|
            0 <= j < final(data)@.len() ==> (#[trigger] final(data)@[j]).mark == pending(
                s,
                final(data)@.len() as int,
                j,
            ),
{
    let ghost at = data@.len() as int;
    let mut k: usize = 0;
    proof {
        lemma_prefix_ordered(s, at);
        assert forall|j: int| 0 <= j < at implies (#[trigger] data@[j]).mark == (pending(
            s,
            at + 1,
            j,
        ) || pointed(s, at, 0, j)) by {
            lemma_pointed_step(s, at, 0, j);
        }
    }
    while k < datum.pointers.len()
        invariant
            valid_heap(s),
            ordered(s.take(at)),
            0 <= at < s.len(),
            at == data@.len(),
            datum.record() == s[at],
            k <= datum.pointers@.len(),
            records(data@) == s.take(at),
            forall|j: int|
                0 <= j < at ==> (#[trigger] data@[j]).mark == (pending(s, at + 1, j) || pointed(
                    s,
                    at,
                    k as int,
                    j,
                )),
        decreases datum.pointers@.len() - k,
    {
        let ghost marked = data@;
        proof {
            assert(s[at].pointers[k as int] == datum.pointers@[k as int].id());
            assert(on_heap(s.take(at), s[at].pointers[k as int]));
        }
        let to = lower_bound(data, datum.pointers[k].id);
        data[to].mark = true;
        proof {
            assert(records(data@) =~= records(marked));
            assert(s.take(at)[to as int] == s[to as int]);
            assert forall|j: int| 0 <= j < at implies (#[trigger] data@[j]).mark == (pending(
                s,
                at + 1,
                j,
            ) || pointed(s, at, k + 1, j)) by {
                lemma_pointed_step(s, at, k as int, j);
                assert(marked[j].mark == (pending(s, at + 1, j) || pointed(s, at, k as int, j)));
                lemma_position(s, j);
                lemma_position(s, to as int);
            }
        }
        k += 1;
    }
    proof {
        assert forall|j: int| 0 <= j < at implies (#[trigger] data@[j]).mark == pending(
            s,
            at,
            j,
        ) by {
            lemma_pending_step(s, at, j);
            lemma_pointed_all(s, at, j);
        }
    }
}

/// Two sequences of data that agree on the marks are unmarked together.
proof fn lemma_same_marks(before: Seq<DatumInner>, after: Seq<DatumInner>)
    requires
        before.len() == after.len(),
        forall|i: int| 0 <= i < before.len() ==> before[i].mark == after[i].mark,
    ensures
        unmarked(before) == unmarked(after),
{
    if unmarked(before) {
        assert forall|i: int| 0 <= i < after.len() implies !(#[trigger] after[i]).mark by {
            assert(!before[i].mark);
        }
    }
    if unmarked(after) {
        assert forall|i: int| 0 <= i < before.len() implies !(#[trigger] before[i]).mark by {
            assert(!after[i].mark);
        }
    }
}

impl View for Heap {
    type V = Seq<Record>;

    closed spec fn view(&self) -> Seq<Record> {
        records(self.data@)
    }
}

/// The position at which the datum `id` stands in `data`, or would have to
/// be put: the number of data that are older than it.
fn lower_bound(data: &Vec<DatumInner>, id: u64) -> (at: usize)
    requires
        ordered(records(data@)),
    ensures
        at <= data@.len(),
        on_heap(records(data@), id) <==> at < data@.len() && data@[at as int].id == id,
        on_heap(records(data@), id) ==> at == position(records(data@), id),
{
    let ghost s = records(data@);
    let mut low: usize = 0;
    let mut high: usize = data.len();
    while low < high
        invariant
            s == records(data@),
            ordered(s),
            low <= high <= data@.len(),
            forall|j: int| 0 <= j < low ==> (#[trigger] s[j]).id < id,
            forall|j: int| high <= j < s.len() ==> (#[trigger] s[j]).id >= id,
        decreases high - low,
    {
        let middle = low + (high - low) / 2;
        assert(s[middle as int].id == data@[middle as int].id);
        if data[middle].id < id {
            assert forall|j: int| 0 <= j < middle + 1 implies (#[trigger] s[j]).id < id by {
                if j < middle {
                    assert(s[j].id < s[middle as int].id);
                }
            }
            low = middle + 1;
        } else {
            assert forall|j: int| middle <= j < s.len() implies (#[trigger] s[j]).id >= id by {
                if middle < j {
                    assert(s[middle as int].id < s[j].id);
                }
            }
            high = middle;
        }
    }
    proof {
        if low < data@.len() {
            assert(s[low as int].id == data@[low as int].id);
            if data@[low as int].id == id {
                lemma_position(s, low as int);
            }
        }
        if on_heap(s, id) {
            let p = position(s, id);
            assert(s[p].id == id);
        }
    }
    low
}

impl Heap {
    /// The number of data that the heap has allocated since it was created.
    /// It is the identity of the datum that is allocated next.
    pub closed spec fn allocated(&self) -> nat {
        self.allocated as nat
    }

    /// No collection is under way: no datum is marked.
    pub closed spec fn at_rest(&self) -> bool {
        unmarked(self.data@)
    }

    /// The heap's invariant: it is at rest, older data stand first, pointers
    /// only go back, and every identity has been allocated.
    pub open spec fn wf(&self) -> bool {
        &&& self.at_rest()
        &&& valid_heap(self@)
        &&& forall|i: int| 0 <= i < self@.len() ==> (#[trigger] self@[i]).id < self.allocated()
    }

    /// Create a new heap with no data.
    pub fn new() -> (heap: Self)
        ensures
            heap.wf(),
            heap@ == Seq::<Record>::empty(),
            heap.allocated() == 0,
    {
        let heap = Heap { data: Vec::new(), allocated: 0 };
        assert(heap@ =~= Seq::<Record>::empty());
        heap
    }

    /// The number of data on the heap.
    pub fn len(&self) -> (len: usize)
        ensures
            len == self@.len(),
    {
        self.data.len()
    }

    /// Whether the datum that `datum` refers to is on this heap.
    pub fn contains(&self, datum: &Datum) -> (found: bool)
        requires
            self.wf(),
        ensures
            found == on_heap(self@, datum.id()),
    {
        let at = lower_bound(&self.data, datum.id);
        at < self.data.len() && self.data[at].id == datum.id
    }

    /// The position on the heap of the datum that `datum` refers to: the
    /// number of data on the heap that are older.
    pub fn position(&self, datum: &Datum) -> (at: usize)
        requires
            self.wf(),
            on_heap(self@, datum.id()),
        ensures
            at == position(self@, datum.id()),
            at < self@.len(),
    {
        self.index_of(datum.id)
    }

    /// The number of handles that anchor the datum that `datum` refers to.
    pub fn roots(&self, datum: &Datum) -> (roots: usize)
        requires
            self.wf(),
            on_heap(self@, datum.id()),
        ensures
            roots == record(self@, datum.id()).roots,
    {
        let at = self.index_of(datum.id);
        self.data[at].roots
    }

    /// The position of a datum that is on the heap.
    fn index_of(&self, id: u64) -> (at: usize)
        requires
            ordered(self@),
            on_heap(self@, id),
        ensures
            at == position(self@, id),
            at < self.data@.len(),
            self.data@[at as int].record() == record(self@, id),
    {
        lower_bound(&self.data, id)
    }

    /// Create a datum.
    ///
    /// The datum is a root until the handle that is returned is released.
    /// Every pointer must refer to a datum on this heap.
    pub fn allocate(&mut self, enchantment: Sigil, pointers: &[Datum], auxiliary: &[u8]) -> (datum:
        Datum)
        requires
            old(self).wf(),
            old(self).allocated() < u64::MAX,
            forall|k: int|
                0 <= k < pointers@.len() ==> on_heap(old(self)@, (#[trigger] pointers@[k]).id()),
        ensures
            final(self).wf(),
            final(self).allocated() == old(self).allocated() + 1,
            datum.id() == old(self).allocated(),
            final(self)@ == old(self)@.push(
                Record {
                    id: datum.id(),
                    roots: 1,
                    enchantment,
                    pointers: ids(pointers@),
                    auxiliary: auxiliary@,
                },
            ),
    {
        let id = self.allocated;
        let inner = Self::construct(id, enchantment, pointers, auxiliary);
        let at = self.data.len();
        self.data.push(inner);
        self.allocated = id + 1;
        let ghost grown = old(self)@.push(inner.record());
        proof {
            let s = old(self)@;
            assert(self@ =~= grown);
            assert forall|i: int, k: int|
                0 <= i < grown.len() && 0 <= k < grown[i].pointers.len() implies on_heap(
                grown.take(i),
                #[trigger] grown[i].pointers[k],
            ) by {
                if i < s.len() {
                    assert(on_heap(s.take(i), s[i].pointers[k]));
                    assert(grown.take(i) =~= s.take(i));
                } else {
                    assert(grown.take(i) =~= s);
                    assert(grown[i].pointers[k] == pointers@[k].id());
                }
            }
            assert(ordered(grown));
            lemma_position(grown, at as int);
        }
        let datum = Datum::enroot(self, at);
        proof {
            assert(self@ =~= old(self)@.push(Record { roots: 1, ..inner.record() }));
            lemma_with_roots(grown, id, 1);
        }
        datum
    }

    /// Perform garbage collection.
    ///
    /// This frees exactly the data that cannot be reached from a root, and
    /// leaves the others as they were, in their order.
    ///
    /// The collector visits the data from the newest to the oldest. A datum
    /// that is rooted or marked passes its mark on to the data it points to,
    /// which all stand before it and are therefore visited later; it is then
    /// unmarked and kept. Any other datum is freed. One pass thus finds what
    /// is reachable and sweeps what is not.
    pub fn collect_garbage(&mut self) -> (stat: CollectStatistics)
        requires
            old(self).wf(),
        ensures
            final(self).wf(),
            final(self).allocated() == old(self).allocated(),
            final(self)@ == survivors(old(self)@),
            stat.data_freed == garbage(old(self)@).len(),
    {
        let ghost s = self@;
        let total = self.data.len();
        let mut stat = CollectStatistics { data_freed: 0 };
        // The data that are kept, newest first.
        let mut kept: Vec<DatumInner> = Vec::with_capacity(total);
        proof {
            assert(s.len() == total);
            assert(s.take(s.len() as int) =~= s);
            assert(records(kept@).reverse() =~= Seq::<Record>::empty());
            assert(survivors(s) =~= s.take(s.len() as int).filter(alive(s)) + records(
                kept@,
            ).reverse());
            assert forall|j: int| 0 <= j < self.data@.len() implies (#[trigger] self.data@[j]).mark
                == pending(s, self.data@.len() as int, j) by {}
        }
        while self.data.len() > 0
            invariant
                valid_heap(s),
                s.len() <= usize::MAX,
                self.allocated == old(self).allocated,
                self.data@.len() <= s.len(),
                records(self.data@) == s.take(self.data@.len() as int),
                forall|j: int|
                    0 <= j < self.data@.len() ==> (#[trigger] self.data@[j]).mark == pending(
                        s,
                        self.data@.len() as int,
                        j,
                    ),
                unmarked(kept@),
                survivors(s) == s.take(self.data@.len() as int).filter(alive(s)) + records(
                    kept@,
                ).reverse(),
                stat.data_freed + kept@.len() + self.data@.len() == s.len(),
            decreases self.data@.len(),
        {
            let ghost before = self.data@;
            let ghost kept_before = kept@;
            let mut datum = self.data.pop().unwrap();
            let ghost at = self.data@.len() as int;
            proof {
                assert(datum.record() == records(before)[at]);
                assert(records(self.data@) =~= s.take(at));
                lemma_mark_means_reachable(s, at);
                lemma_sweep_step(s, at + 1);
                assert forall|j: int| 0 <= j < at implies (#[trigger] self.data@[j]).mark
                    == pending(s, at + 1, j) by {
                    assert(self.data@[j] == before[j]);
                }
            }
            if datum.roots > 0 {
                datum.mark = true;
            }
            if datum.mark {
                mark_pointees(&mut self.data, &datum, Ghost(s));
                datum.mark = false;
                kept.push(datum);
                proof {
                    assert(records(kept@).reverse() =~= seq![s[at]] + records(
                        kept_before,
                    ).reverse());
                    assert(s.take(at).filter(alive(s)).push(s[at]) + records(
                        kept_before,
                    ).reverse() =~= s.take(at).filter(alive(s)) + records(kept@).reverse());
                }
            } else {
                stat.data_freed += 1;
                proof {
                    assert forall|j: int| 0 <= j < at implies (#[trigger] self.data@[j]).mark
                        == pending(s, at, j) by {
                        lemma_pending_step(s, at, j);
                    }
                }
            }
        }
        proof {
            lemma_sweep_done(s);
            assert(records(self.data@) =~= Seq::<Record>::empty());
            assert(survivors(s) =~= records(self.data@) + records(kept@).reverse());
        }
        while kept.len() > 0
            invariant
                self.allocated == old(self).allocated,
                unmarked(kept@),
                unmarked(self.data@),
                survivors(s) == records(self.data@) + records(kept@).reverse(),
            decreases kept@.len(),
        {
            let ghost data_before = self.data@;
            let ghost kept_before = kept@;
            let datum = kept.pop().unwrap();
            self.data.push(datum);
            proof {
                assert(records(kept_before).reverse() =~= seq![datum.record()] + records(
                    kept@,
                ).reverse());
                assert(records(self.data@) =~= records(data_before).push(datum.record()));
                assert(records(self.data@) + records(kept@).reverse() =~= records(data_before)
                    + records(kept_before).reverse());
            }
        }
        proof {
            assert(records(kept@).reverse() =~= Seq::<Record>::empty());
            assert(self@ =~= survivors(s));
            lemma_survivors_valid(s);
            lemma_freed_count(s);
            assert forall|a: int| 0 <= a < self@.len() implies (#[trigger] self@[a]).id
                < self.allocated() by {
                lemma_survivor_unchanged(s, a);
                let i = position(s, self@[a].id);
                assert(s[i].id < old(self).allocated());
            }
        }
        stat
    }

    /// Build what the heap stores for a new datum: a copy of the pointers and
    /// of the payload, no root and no mark.
    fn construct(id: u64, enchantment: Sigil, pointers: &[Datum], auxiliary: &[u8]) -> (inner:
        DatumInner)
        ensures
            !inner.mark,
            inner.record() == (Record {
                id,
                roots: 0,
                enchantment,
                pointers: ids(pointers@),
                auxiliary: auxiliary@,
            }),
    {
        let mut copied: Vec<Datum> = Vec::new();
        let mut k: usize = 0;
        while k < pointers.len()
            invariant
                k <= pointers@.len(),
                copied@.len() == k,
                forall|j: int| 0 <= j < k ==> (#[trigger] copied@[j]).id() == pointers@[j].id(),
            decreases pointers@.len() - k,
        {
            copied.push(Datum { id: pointers[k].id });
            k += 1;
        }
        assert(ids(copied@) =~= ids(pointers@));
        DatumInner {
            id,
            mark: false,
            roots: 0,
            enchantment,
            pointers: copied,
            auxiliary: slice_to_vec(auxiliary),
        }
    }
}

impl Datum {
    /// The sigil that names the datum's dispatch class.
    pub fn enchantment(&self, heap: &Heap) -> (enchantment: Sigil)
        requires
            heap.wf(),
            on_heap(heap@, self.id()),
        ensures
            enchantment == record(heap@, self.id()).enchantment,
    {
        let at = heap.index_of(self.id);
        heap.data[at].enchantment
    }

    /// The data that the datum points to, in order. The handles in the
    /// slice are borrowed from the heap: they anchor nothing.
    pub fn pointers<'a>(&self, heap: &'a Heap) -> (pointers: &'a [Datum])
        requires
            heap.wf(),
            on_heap(heap@, self.id()),
        ensures
            ids(pointers@) == record(heap@, self.id()).pointers,
    {
        let at = heap.index_of(self.id);
        heap.data[at].pointers.as_slice()
    }

    /// The datum's opaque payload.
    pub fn auxiliary<'a>(&self, heap: &'a Heap) -> (auxiliary: &'a [u8])
        requires
            heap.wf(),
            on_heap(heap@, self.id()),
        ensures
            auxiliary@ == record(heap@, self.id()).auxiliary,
    {
        let at = heap.index_of(self.id);
        heap.data[at].auxiliary.as_slice()
    }

    /// Whether two handles refer to the same datum.
    pub fn same(&self, other: &Datum) -> (same: bool)
        ensures
            same == (self.id() == other.id()),
    {
        self.id == other.id
    }

    /// Create another handle to the same datum, which gets one more root.
    pub fn retain(&self, heap: &mut Heap) -> (handle: Datum)
        requires
            old(heap).wf(),
            on_heap(old(heap)@, self.id()),
            record(old(heap)@, self.id()).roots < usize::MAX,
        ensures
            final(heap).wf(),
            final(heap).allocated() == old(heap).allocated(),
            handle.id() == self.id(),
            final(heap)@ == with_roots(
                old(heap)@,
                self.id(),
                record(old(heap)@, self.id()).roots + 1,
            ),
    {
        let at = heap.index_of(self.id);
        proof {
            lemma_with_roots(heap@, self.id(), record(heap@, self.id()).roots + 1);
        }
        Datum::enroot(heap, at)
    }

    /// Give up a handle: the datum that it refers to loses one root.
    pub fn release(self, heap: &mut Heap)
        requires
            old(heap).wf(),
            on_heap(old(heap)@, self.id()),
            record(old(heap)@, self.id()).roots > 0,
        ensures
            final(heap).wf(),
            final(heap).allocated() == old(heap).allocated(),
            final(heap)@ == with_roots(
                old(heap)@,
                self.id(),
                (record(old(heap)@, self.id()).roots - 1) as nat,
            ),
    {
        let at = heap.index_of(self.id);
        proof {
            lemma_with_roots(heap@, self.id(), (record(heap@, self.id()).roots - 1) as nat);
        }
        heap.data[at].roots = heap.data[at].roots - 1;
        proof {
            lemma_same_marks(old(heap).data@, heap.data@);
        }
        assert(heap@ =~= with_roots(
            old(heap)@,
            self.id(),
            (record(old(heap)@, self.id()).roots - 1) as nat,
        ));
    }

    /// Add a root to the datum at position `at`, and make the handle that
    /// accounts for it.
    fn enroot(heap: &mut Heap, at: usize) -> (handle: Datum)
        requires
            at < old(heap)@.len(),
            old(heap)@[at as int].roots < usize::MAX,
        ensures
            handle.id() == old(heap)@[at as int].id,
            final(heap).allocated() == old(heap).allocated(),
            final(heap).at_rest() == old(heap).at_rest(),
            final(heap)@ == old(heap)@.update(
                at as int,
                Record { roots: old(heap)@[at as int].roots + 1, ..old(heap)@[at as int] },
            ),
    {
        heap.data[at].roots = heap.data[at].roots + 1;
        proof {
            lemma_same_marks(old(heap).data@, heap.data@);
        }
        assert(heap@ =~= old(heap)@.update(
            at as int,
            Record { roots: old(heap)@[at as int].roots + 1, ..old(heap)@[at as int] },
        ));
        Datum { id: heap.data[at].id }
    }
}

/// Give up all the handles in `handles`.
pub fn release_all(heap: &mut Heap, handles: Vec<Datum>)
    requires
        old(heap).wf(),
        covers(old(heap)@, ids(handles@)),
    ensures
        final(heap).wf(),
        final(heap).allocated() == old(heap).allocated(),
        accounts(old(heap)@, final(heap)@, ids(handles@), Seq::empty()),
{
    let ghost start = heap@;
    let ghost all = ids(handles@);
    let ghost gone = Seq::<u64>::empty();
    let mut handles = handles;
    proof {
        lemma_accounts_nothing(start);
    }
    while handles.len() > 0
        invariant
            heap.wf(),
            heap.allocated() == old(heap).allocated(),
            start == old(heap)@,
            valid_heap(start),
            covers(start, all),
            accounts(start, heap@, gone, Seq::empty()),
            forall|id: u64|
                #![trigger count(gone, id)]
                #![trigger count(ids(handles@), id)]
                count(ids(handles@), id) + count(gone, id) == count(all, id),
        decreases handles@.len(),
    {
        let ghost rest = ids(handles@);
        let ghost now = heap@;
        let handle = handles.pop().unwrap();
        proof {
            let id = handle.id();
            assert(rest.drop_last() =~= ids(handles@));
            assert(rest.last() == id);
            lemma_count_bounds(all, id);
            assert(count(rest, id) + count(gone, id) == count(all, id));
            let j = choose|j: int| 0 <= j < all.len() && all[j] == id;
            assert(on_heap(start, all[j]) && count(all, all[j]) <= record(start, all[j]).roots);
            lemma_accounts_record(start, now, gone, Seq::empty(), id);
            lemma_accounts_release(start, now, gone, Seq::empty(), id);
            assert forall|other: u64|
                #![trigger count(gone.push(id), other)]
                #![trigger count(ids(handles@), other)]
                count(ids(handles@), other) + count(gone.push(id), other) == count(all, other) by {
                lemma_count_push(gone, id, other);
                assert(count(rest, other) + count(gone, other) == count(all, other));
            }
            gone = gone.push(id);
        }
        handle.release(heap);
    }
    proof {
        assert(ids(handles@) =~= Seq::<u64>::empty());
        assert forall|id: u64|
            #![trigger count(all, id)]
            #![trigger count(Seq::<u64>::empty(), id)]
            count(Seq::<u64>::empty(), id) + count(all, id) == count(Seq::<u64>::empty(), id)
                + count(gone, id) by {
            assert(count(ids(handles@), id) + count(gone, id) == count(all, id));
        }
        lemma_accounts_balance(start, heap@, gone, Seq::empty(), all, Seq::empty());
    }
}

} // verus!
