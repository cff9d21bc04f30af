//! Reachability on a heap, and what a garbage collection keeps.

use super::handles::covers;
use super::handles::lemma_covers_rooted;
use super::lemma_position;
use super::on_heap;
use super::ordered;
use super::points_back;
use super::position;
use super::record;
use super::Record;
use super::valid_heap;
use vstd::prelude::*;

verus! {

/// A chain is a path through the heap `s` that starts at a root: a
/// non-empty sequence of identities of data on `s`, the first of them
/// rooted, each of the others pointed to by the one before it.
pub open spec fn is_chain(s: Seq<Record>, chain: Seq<u64>) -> bool {
    &&& chain.len() > 0
    &&& forall|k: int| 0 <= k < chain.len() ==> on_heap(s, #[trigger] chain[k])
    &&& record(s, chain[0]).roots > 0
    &&& forall|k: int|
        1 <= k < chain.len() ==> record(s, chain[k - 1]).pointers.contains(#[trigger] chain[k])
}

/// A datum is reachable when a chain ends at it: it is rooted, or it can be
/// reached from a rooted datum by following pointers.
pub open spec fn reachable(s: Seq<Record>, id: u64) -> bool {
    exists|chain: Seq<u64>| #[trigger] is_chain(s, chain) && chain.last() == id
}

/// The test that a garbage collection of the heap `s` puts to each record.
pub open spec fn alive(s: Seq<Record>) -> spec_fn(Record) -> bool {
    |r: Record| reachable(s, r.id)
}

/// The negation of [`alive`].
pub open spec fn dead(s: Seq<Record>) -> spec_fn(Record) -> bool {
    |r: Record| !reachable(s, r.id)
}

/// The heap that a garbage collection of `s` leaves: the reachable records,
/// unchanged and in their order.
pub open spec fn survivors(s: Seq<Record>) -> Seq<Record> {
    s.filter(alive(s))
}

/// The records that a garbage collection of `s` frees.
pub open spec fn garbage(s: Seq<Record>) -> Seq<Record> {
    s.filter(dead(s))
}

/// A rooted datum is reachable.
pub proof fn lemma_root_reachable(s: Seq<Record>, id: u64)
    requires
        on_heap(s, id),
        record(s, id).roots > 0,
    ensures
        reachable(s, id),
{
    let chain = seq![id];
    assert(is_chain(s, chain));
    assert(chain.last() == id);
}

/// What a reachable datum points to is reachable.
pub proof fn lemma_pointee_reachable(s: Seq<Record>, from: u64, to: u64)
    requires
        reachable(s, from),
        record(s, from).pointers.contains(to),
        on_heap(s, to),
    ensures
        reachable(s, to),
{
    let found = choose|chain: Seq<u64>| #[trigger] is_chain(s, chain) && chain.last() == from;
    let chain = found.push(to);
    assert forall|k: int| 0 <= k < chain.len() implies on_heap(s, #[trigger] chain[k]) by {
        if k < found.len() {
            assert(chain[k] == found[k]);
        }
    }
    assert forall|k: int| 1 <= k < chain.len() implies record(s, chain[k - 1]).pointers.contains(
        #[trigger] chain[k],
    ) by {
        if k < found.len() {
            assert(chain[k] == found[k]);
            assert(chain[k - 1] == found[k - 1]);
        }
    }
    assert(chain[0] == found[0]);
    assert(is_chain(s, chain));
    assert(chain.last() == to);
}

/// A reachable datum is on the heap, and it is rooted or pointed to by a
/// reachable datum.
pub proof fn lemma_reachable_cause(s: Seq<Record>, id: u64)
    requires
        reachable(s, id),
    ensures
        on_heap(s, id),
        record(s, id).roots > 0 || exists|from: u64|
            reachable(s, from) && #[trigger] record(s, from).pointers.contains(id),
{
    let chain = choose|chain: Seq<u64>| #[trigger] is_chain(s, chain) && chain.last() == id;
    let n = chain.len() as int;
    assert(chain[n - 1] == id);
    if n > 1 {
        let from = chain[n - 2];
        lemma_chain_prefix(s, chain, n - 2);
        assert(record(s, chain[n - 1 - 1]).pointers.contains(chain[n - 1]));
        assert(reachable(s, from) && record(s, from).pointers.contains(id));
    }
}

/// Every datum on a chain is reachable.
pub proof fn lemma_chain_prefix(s: Seq<Record>, chain: Seq<u64>, k: int)
    requires
        is_chain(s, chain),
        0 <= k < chain.len(),
    ensures
        reachable(s, chain[k]),
{
    let prefix = chain.take(k + 1);
    assert forall|j: int| 0 <= j < prefix.len() implies on_heap(s, #[trigger] prefix[j]) by {
        assert(prefix[j] == chain[j]);
    }
    assert forall|j: int| 1 <= j < prefix.len() implies record(s, prefix[j - 1]).pointers.contains(
        #[trigger] prefix[j],
    ) by {
        assert(prefix[j] == chain[j]);
        assert(prefix[j - 1] == chain[j - 1]);
    }
    assert(prefix[0] == chain[0]);
    assert(is_chain(s, prefix));
    assert(prefix.last() == chain[k]);
}

/// On a valid heap, a datum that points to another stands after it.
pub proof fn lemma_pointer_goes_back(s: Seq<Record>, from: int, to: int)
    requires
        valid_heap(s),
        0 <= from < s.len(),
        0 <= to < s.len(),
        s[from].pointers.contains(s[to].id),
    ensures
        to < from,
{
    let k = choose|k: int| 0 <= k < s[from].pointers.len() && s[from].pointers[k] == s[to].id;
    assert(on_heap(s.take(from), s[from].pointers[k]));
    let j = choose|j: int|
        0 <= j < s.take(from).len() && #[trigger] s.take(from)[j].id == s[from].pointers[k];
    assert(s.take(from)[j] == s[j]);
    if j < to {
        assert(s[j].id < s[to].id);
    } else if to < j {
        assert(s[to].id < s[j].id);
    }
}

/// On a valid heap, what a datum points to is on the heap.
pub proof fn lemma_pointee_present(s: Seq<Record>, from: int, to: u64)
    requires
        points_back(s),
        0 <= from < s.len(),
        s[from].pointers.contains(to),
    ensures
        on_heap(s, to),
        on_heap(s.take(from), to),
{
    let k = choose|k: int| 0 <= k < s[from].pointers.len() && s[from].pointers[k] == to;
    assert(on_heap(s.take(from), s[from].pointers[k]));
    let j = choose|j: int| 0 <= j < s.take(from).len() && #[trigger] s.take(from)[j].id == to;
    assert(s.take(from)[j] == s[j]);
    assert(s[j].id == to);
}

/// What filtering keeps was there before, and passes the test.
pub proof fn lemma_filter_member(s: Seq<Record>, test: spec_fn(Record) -> bool, a: int)
    requires
        0 <= a < s.filter(test).len(),
    ensures
        s.contains(s.filter(test)[a]),
        test(s.filter(test)[a]),
    decreases s.len(),
{
    reveal(Seq::filter);
    if s.len() > 0 {
        let front = s.drop_last();
        if a < front.filter(test).len() {
            lemma_filter_member(front, test, a);
            let i = choose|i: int| 0 <= i < front.len() && front[i] == front.filter(test)[a];
            assert(s[i] == front[i]);
        } else {
            assert(s[s.len() - 1] == s.last());
        }
    }
}

/// Filtering keeps everything that passes the test.
pub proof fn lemma_filter_keeps(s: Seq<Record>, test: spec_fn(Record) -> bool, i: int)
    requires
        0 <= i < s.len(),
        test(s[i]),
    ensures
        s.filter(test).contains(s[i]),
    decreases s.len(),
{
    reveal(Seq::filter);
    let front = s.drop_last();
    let kept = front.filter(test);
    if i < s.len() - 1 {
        lemma_filter_keeps(front, test, i);
        let a = choose|a: int| 0 <= a < kept.len() && kept[a] == front[i];
        assert(s.filter(test)[a] == s[i]);
    } else {
        assert(s.filter(test)[kept.len() as int] == s[i]);
    }
}

/// Filtering a sequence whose every element passes the test changes nothing.
pub proof fn lemma_filter_all(s: Seq<Record>, test: spec_fn(Record) -> bool)
    requires
        forall|i: int| 0 <= i < s.len() ==> test(#[trigger] s[i]),
    ensures
        s.filter(test) == s,
    decreases s.len(),
{
    reveal(Seq::filter);
    if s.len() > 0 {
        let front = s.drop_last();
        assert forall|i: int| 0 <= i < front.len() implies test(#[trigger] front[i]) by {
            assert(front[i] == s[i]);
        }
        lemma_filter_all(front, test);
        assert(test(s[s.len() - 1]));
        assert(front.push(s.last()) =~= s);
    } else {
        assert(s.filter(test) =~= s);
    }
}

/// A test and its negation split a sequence in two.
pub proof fn lemma_filter_split(
    s: Seq<Record>,
    test: spec_fn(Record) -> bool,
    other: spec_fn(Record) -> bool,
)
    requires
        forall|r: Record| #[trigger] other(r) == !test(r),
    ensures
        s.filter(test).len() + s.filter(other).len() == s.len(),
    decreases s.len(),
{
    reveal(Seq::filter);
    if s.len() > 0 {
        lemma_filter_split(s.drop_last(), test, other);
        assert(other(s.last()) == !test(s.last()));
    }
}

/// Filtering keeps the order: the result of filtering an ordered heap is
/// ordered.
pub proof fn lemma_filter_ordered(s: Seq<Record>, test: spec_fn(Record) -> bool)
    requires
        ordered(s),
    ensures
        ordered(s.filter(test)),
    decreases s.len(),
{
    reveal(Seq::filter);
    if s.len() > 0 {
        let front = s.drop_last();
        let kept = front.filter(test);
        assert(ordered(front)) by {
            assert forall|i: int, j: int| 0 <= i < j < front.len() implies (#[trigger] front[i]).id
                < (#[trigger] front[j]).id by {
                assert(s[i].id < s[j].id);
            }
        }
        lemma_filter_ordered(front, test);
        if test(s.last()) {
            let t = s.filter(test);
            assert forall|i: int, j: int| 0 <= i < j < t.len() implies (#[trigger] t[i]).id < (
            #[trigger] t[j]).id by {
                if j < kept.len() {
                    assert(kept[i].id < kept[j].id);
                } else {
                    lemma_filter_member(front, test, i);
                    let p = choose|p: int| 0 <= p < front.len() && front[p] == kept[i];
                    assert(s[p].id < s[s.len() - 1].id);
                }
            }
        }
    }
}

/// Transitive retention: a reachable datum survives a collection, and its
/// record is what it was.
pub proof fn lemma_reachable_survives(s: Seq<Record>, id: u64)
    requires
        valid_heap(s),
        reachable(s, id),
    ensures
        on_heap(survivors(s), id),
        record(survivors(s), id) == record(s, id),
{
    lemma_reachable_cause(s, id);
    let i = position(s, id);
    lemma_position(s, i);
    lemma_filter_keeps(s, alive(s), i);
    let t = survivors(s);
    let a = choose|a: int| 0 <= a < t.len() && t[a] == s[i];
    lemma_filter_ordered(s, alive(s));
    lemma_position(t, a);
}

/// Root safety: a datum with a root survives a collection, and its record
/// is what it was.
pub proof fn lemma_rooted_survives(s: Seq<Record>, id: u64)
    requires
        valid_heap(s),
        on_heap(s, id),
        record(s, id).roots > 0,
    ensures
        on_heap(survivors(s), id),
        record(survivors(s), id) == record(s, id),
{
    lemma_root_reachable(s, id);
    lemma_reachable_survives(s, id);
}

/// Garbage is reclaimed: a datum that is not reachable is gone after a
/// collection.
pub proof fn lemma_unreachable_freed(s: Seq<Record>, id: u64)
    requires
        !reachable(s, id),
    ensures
        !on_heap(survivors(s), id),
{
    let t = survivors(s);
    if on_heap(t, id) {
        let a = position(t, id);
        lemma_filter_member(s, alive(s), a);
    }
}

/// Every record is either kept or freed.
pub proof fn lemma_freed_count(s: Seq<Record>)
    ensures
        survivors(s).len() + garbage(s).len() == s.len(),
{
    lemma_filter_split(s, alive(s), dead(s));
}

/// Immutability: every record on the heap after a collection was on the
/// heap before it, with the same roots, enchantment, pointers and payload,
/// and was reachable.
pub proof fn lemma_survivor_unchanged(s: Seq<Record>, a: int)
    requires
        valid_heap(s),
        0 <= a < survivors(s).len(),
    ensures
        reachable(s, survivors(s)[a].id),
        on_heap(s, survivors(s)[a].id),
        record(s, survivors(s)[a].id) == survivors(s)[a],
{
    lemma_filter_member(s, alive(s), a);
    let i = choose|i: int| 0 <= i < s.len() && s[i] == survivors(s)[a];
    lemma_position(s, i);
}

/// No rearrangement: two data that survive a collection stand in the order
/// in which they stood before.
pub proof fn lemma_survivors_keep_order(s: Seq<Record>, a: int, b: int)
    requires
        valid_heap(s),
        0 <= a < b < survivors(s).len(),
    ensures
        position(s, survivors(s)[a].id) < position(s, survivors(s)[b].id),
{
    let t = survivors(s);
    lemma_filter_ordered(s, alive(s));
    lemma_survivor_unchanged(s, a);
    lemma_survivor_unchanged(s, b);
    let i = position(s, t[a].id);
    let j = position(s, t[b].id);
    assert(t[a].id < t[b].id);
    if j < i {
        assert(s[j].id < s[i].id);
    }
}

/// A collection leaves a valid heap.
pub proof fn lemma_survivors_valid(s: Seq<Record>)
    requires
        valid_heap(s),
    ensures
        valid_heap(survivors(s)),
{
    let t = survivors(s);
    lemma_filter_ordered(s, alive(s));
    assert forall|a: int, k: int| 0 <= a < t.len() && 0 <= k < t[a].pointers.len() implies on_heap(
        t.take(a),
        #[trigger] t[a].pointers[k],
    ) by {
        let to = t[a].pointers[k];
        lemma_survivor_unchanged(s, a);
        let i = position(s, t[a].id);
        assert(s[i].pointers.contains(to));
        lemma_pointee_present(s, i, to);
        lemma_pointee_reachable(s, t[a].id, to);
        lemma_reachable_survives(s, to);
        let j = position(s, to);
        lemma_pointer_goes_back(s, i, j);
        assert(s[j].id < s[i].id);
        let b = position(t, to);
        if a <= b {
            if a < b {
                assert(t[a].id < t[b].id);
            }
        }
        assert(t.take(a)[b].id == to);
    }
}

/// Idempotence: a heap that was just collected holds no garbage, so that a
/// second collection frees nothing and changes nothing.
pub proof fn lemma_survivors_idempotent(s: Seq<Record>)
    requires
        valid_heap(s),
    ensures
        survivors(survivors(s)) == survivors(s),
        garbage(survivors(s)).len() == 0,
{
    let t = survivors(s);
    lemma_survivors_valid(s);
    assert forall|a: int| 0 <= a < t.len() implies alive(t)(#[trigger] t[a]) by {
        lemma_survivor_unchanged(s, a);
        let chain = choose|chain: Seq<u64>| #[trigger]
            is_chain(s, chain) && chain.last() == t[a].id;
        assert forall|k: int| 0 <= k < chain.len() implies on_heap(t, #[trigger] chain[k]) && record(
            t,
            chain[k],
        ) == record(s, chain[k]) by {
            lemma_chain_prefix(s, chain, k);
            lemma_reachable_survives(s, chain[k]);
        }
        assert forall|k: int| 1 <= k < chain.len() implies record(t, chain[k - 1]).pointers.contains(
            #[trigger] chain[k],
        ) by {
            assert(record(t, chain[k - 1]) == record(s, chain[k - 1]));
        }
        assert(is_chain(t, chain));
    }
    lemma_filter_all(t, alive(t));
    lemma_freed_count(t);
}

/// Handles outlive collections: a heap that accounts for some handles
/// still accounts for them once it has been collected.
pub proof fn lemma_survivors_cover(s: Seq<Record>, ids: Seq<u64>)
    requires
        valid_heap(s),
        covers(s, ids),
    ensures
        covers(survivors(s), ids),
{
    lemma_covers_rooted(s, ids);
    assert forall|k: int| 0 <= k < ids.len() implies on_heap(survivors(s), #[trigger] ids[k])
        && record(survivors(s), ids[k]) == record(s, ids[k]) by {
        lemma_rooted_survives(s, ids[k]);
    }
}

} // verus!
