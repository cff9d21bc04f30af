//! Accounting for handles: how the root counts of a heap follow the handles
//! that are created and given up.

use super::lemma_position;
use super::on_heap;
use super::ordered;
use super::points_back;
use super::position;
use super::record;
use super::Record;
use super::valid_heap;
use super::with_roots;
use vstd::prelude::*;

verus! {

/// How many of the handles `ids` refer to the datum `id`.
pub open spec fn count(ids: Seq<u64>, id: u64) -> nat
    decreases ids.len(),
{
    if ids.len() == 0 {
        0
    } else {
        count(ids.drop_last(), id) + if ids.last() == id {
            1nat
        } else {
            0nat
        }
    }
}

/// The datum `id` is on the heap `s` and has a root.
pub open spec fn rooted(s: Seq<Record>, id: u64) -> bool {
    on_heap(s, id) && record(s, id).roots > 0
}

/// Every handle in `ids` refers to a rooted datum of the heap `s`.
pub open spec fn all_rooted(s: Seq<Record>, ids: Seq<u64>) -> bool {
    forall|k: int| 0 <= k < ids.len() ==> rooted(s, #[trigger] ids[k])
}

/// The heap `s` accounts for the handles `ids`: each refers to a datum on
/// the heap, and no datum has fewer roots than there are handles to it.
pub open spec fn covers(s: Seq<Record>, ids: Seq<u64>) -> bool {
    forall|k: int|
        0 <= k < ids.len() ==> on_heap(s, #[trigger] ids[k]) && count(ids, ids[k]) <= record(
            s,
            ids[k],
        ).roots
}

/// Every datum of the heap `s` that a handle in `ids` refers to can take
/// `extra` more roots: the count still fits the machine.
pub open spec fn headroom(s: Seq<Record>, ids: Seq<u64>, extra: nat) -> bool {
    forall|k: int| 0 <= k < ids.len() ==> record(s, #[trigger] ids[k]).roots + extra <= usize::MAX
}

/// The heap `after` is the heap `before` once the handles `given_up` have
/// been released and the handles `made` created: the same data at the same
/// positions, and for each datum as many roots more as handles to it were
/// made, and as many fewer as were given up.
pub open spec fn accounts(
    before: Seq<Record>,
    after: Seq<Record>,
    given_up: Seq<u64>,
    made: Seq<u64>,
) -> bool {
    &&& before.len() == after.len()
    &&& forall|i: int|
        #![trigger after[i]]
        #![trigger before[i]]
        0 <= i < before.len() ==> {
            &&& after[i] == Record { roots: after[i].roots, ..before[i] }
            &&& after[i].roots + count(given_up, before[i].id) == before[i].roots + count(
                made,
                before[i].id,
            )
        }
}

/// One more handle counts for the datum that it refers to, and for no other.
pub proof fn lemma_count_push(ids: Seq<u64>, handle: u64, id: u64)
    ensures
        count(ids.push(handle), id) == count(ids, id) + if handle == id {
            1nat
        } else {
            0nat
        },
{
    assert(ids.push(handle).drop_last() =~= ids);
}

/// No handles refer to nothing.
pub proof fn lemma_count_empty(id: u64)
    ensures
        count(Seq::<u64>::empty(), id) == 0,
{
}

/// Handles of two sequences count together.
pub proof fn lemma_count_concat(a: Seq<u64>, b: Seq<u64>, id: u64)
    ensures
        count(a + b, id) == count(a, id) + count(b, id),
    decreases b.len(),
{
    if b.len() == 0 {
        assert(a + b =~= a);
    } else {
        lemma_count_concat(a, b.drop_last(), id);
        assert((a + b).drop_last() =~= a + b.drop_last());
    }
}

/// Replacing one handle takes one from the count of the datum that it
/// referred to, and adds one to that of the datum that the new one refers to.
pub proof fn lemma_count_update(ids: Seq<u64>, k: int, handle: u64, id: u64)
    requires
        0 <= k < ids.len(),
    ensures
        count(ids.update(k, handle), id) + (if ids[k] == id {
            1nat
        } else {
            0nat
        }) == count(ids, id) + (if handle == id {
            1nat
        } else {
            0nat
        }),
    decreases ids.len(),
{
    if k == ids.len() - 1 {
        assert(ids.update(k, handle).drop_last() =~= ids.drop_last());
    } else {
        lemma_count_update(ids.drop_last(), k, handle, id);
        assert(ids.update(k, handle).drop_last() =~= ids.drop_last().update(k, handle));
    }
}

/// There are no more handles to a datum than there are handles, and there
/// is one exactly when a handle refers to it.
pub proof fn lemma_count_bounds(ids: Seq<u64>, id: u64)
    ensures
        count(ids, id) <= ids.len(),
        count(ids, id) > 0 <==> ids.contains(id),
    decreases ids.len(),
{
    if ids.len() > 0 {
        lemma_count_bounds(ids.drop_last(), id);
        if ids.drop_last().contains(id) {
            let k = choose|k: int| 0 <= k < ids.drop_last().len() && ids.drop_last()[k] == id;
            assert(ids[k] == id);
        }
        if ids.contains(id) {
            let k = choose|k: int| 0 <= k < ids.len() && ids[k] == id;
            if k < ids.len() - 1 {
                assert(ids.drop_last()[k] == id);
            }
        }
        if ids.last() == id {
            assert(ids[ids.len() - 1] == id);
        }
    }
}

/// A heap accounts for itself when nothing was given up and nothing made.
pub proof fn lemma_accounts_nothing(s: Seq<Record>)
    ensures
        accounts(s, s, Seq::<u64>::empty(), Seq::<u64>::empty()),
{
}

/// The account only depends on the balance of each datum: how many more
/// handles to it were made than given up.
pub proof fn lemma_accounts_balance(
    before: Seq<Record>,
    after: Seq<Record>,
    given_up: Seq<u64>,
    made: Seq<u64>,
    given_up_too: Seq<u64>,
    made_too: Seq<u64>,
)
    requires
        accounts(before, after, given_up, made),
        forall|id: u64|
            #![trigger count(made_too, id)]
            #![trigger count(given_up_too, id)]
            count(made, id) + count(given_up_too, id) == count(made_too, id) + count(given_up, id),
    ensures
        accounts(before, after, given_up_too, made_too),
{
    assert forall|i: int|
        #![trigger after[i]]
        #![trigger before[i]]
        0 <= i < before.len() implies after[i].roots + count(given_up_too, before[i].id)
        == before[i].roots + count(made_too, before[i].id) by {
        let id = before[i].id;
        assert(count(made, id) + count(given_up_too, id) == count(made_too, id) + count(
            given_up,
            id,
        ));
    }
}

/// A change of root counts keeps a heap valid and every datum in place.
pub proof fn lemma_accounts_valid(
    before: Seq<Record>,
    after: Seq<Record>,
    given_up: Seq<u64>,
    made: Seq<u64>,
)
    requires
        valid_heap(before),
        accounts(before, after, given_up, made),
    ensures
        valid_heap(after),
        forall|id: u64| on_heap(after, id) == on_heap(before, id),
        forall|id: u64|
            on_heap(before, id) ==> position(after, id) == position(before, id) && #[trigger] record(
                after,
                id,
            ) == (Record { roots: record(after, id).roots, ..record(before, id) }),
{
    assert(ordered(after)) by {
        assert forall|i: int, j: int| 0 <= i < j < after.len() implies (#[trigger] after[i]).id < (
        #[trigger] after[j]).id by {
            assert(before[i].id < before[j].id);
        }
    }
    assert(points_back(after)) by {
        assert forall|i: int, k: int|
            0 <= i < after.len() && 0 <= k < after[i].pointers.len() implies on_heap(
            after.take(i),
            #[trigger] after[i].pointers[k],
        ) by {
            assert(on_heap(before.take(i), before[i].pointers[k]));
            let j = choose|j: int|
                0 <= j < before.take(i).len() && #[trigger] before.take(i)[j].id
                    == before[i].pointers[k];
            assert(after.take(i)[j].id == before[j].id);
        }
    }
    assert forall|id: u64| on_heap(after, id) == on_heap(before, id) by {
        if on_heap(before, id) {
            assert(after[position(before, id)].id == id);
        }
        if on_heap(after, id) {
            assert(before[position(after, id)].id == id);
        }
    }
    assert forall|id: u64| on_heap(before, id) implies position(after, id) == position(before, id)
        && #[trigger] record(after, id) == (Record {
        roots: record(after, id).roots,
        ..record(before, id)
    }) by {
        let i = position(before, id);
        lemma_position(before, i);
        assert(after[i].id == id);
        lemma_position(after, i);
    }
}

/// Creating a handle to a datum adds it to the account.
pub proof fn lemma_accounts_retain(
    before: Seq<Record>,
    now: Seq<Record>,
    given_up: Seq<u64>,
    made: Seq<u64>,
    id: u64,
)
    requires
        valid_heap(before),
        accounts(before, now, given_up, made),
        on_heap(now, id),
    ensures
        accounts(
            before,
            with_roots(now, id, record(now, id).roots + 1),
            given_up,
            made.push(id),
        ),
{
    let next = with_roots(now, id, record(now, id).roots + 1);
    lemma_accounts_valid(before, now, given_up, made);
    let p = position(now, id);
    lemma_position(now, p);
    assert forall|i: int|
        #![trigger next[i]]
        #![trigger before[i]]
        0 <= i < before.len() implies next[i] == (Record { roots: next[i].roots, ..before[i] })
        && next[i].roots + count(given_up, before[i].id) == before[i].roots + count(
        made.push(id),
        before[i].id,
    ) by {
        lemma_count_push(made, id, before[i].id);
        lemma_position(now, i);
        assert(now[i] == Record { roots: now[i].roots, ..before[i] });
    }
}

/// Releasing a handle to a datum adds it to what was given up.
pub proof fn lemma_accounts_release(
    before: Seq<Record>,
    now: Seq<Record>,
    given_up: Seq<u64>,
    made: Seq<u64>,
    id: u64,
)
    requires
        valid_heap(before),
        accounts(before, now, given_up, made),
        rooted(now, id),
    ensures
        accounts(
            before,
            with_roots(now, id, (record(now, id).roots - 1) as nat),
            given_up.push(id),
            made,
        ),
{
    let next = with_roots(now, id, (record(now, id).roots - 1) as nat);
    lemma_accounts_valid(before, now, given_up, made);
    let p = position(now, id);
    lemma_position(now, p);
    assert forall|i: int|
        #![trigger next[i]]
        #![trigger before[i]]
        0 <= i < before.len() implies next[i] == (Record { roots: next[i].roots, ..before[i] })
        && next[i].roots + count(given_up.push(id), before[i].id) == before[i].roots + count(
        made,
        before[i].id,
    ) by {
        lemma_count_push(given_up, id, before[i].id);
        lemma_position(now, i);
        assert(now[i] == Record { roots: now[i].roots, ..before[i] });
    }
}

/// What an account says of one datum: it stays on the heap with its
/// identity, enchantment, pointers and payload, and its roots follow the
/// handles.
pub proof fn lemma_accounts_record(
    before: Seq<Record>,
    after: Seq<Record>,
    given_up: Seq<u64>,
    made: Seq<u64>,
    id: u64,
)
    requires
        valid_heap(before),
        accounts(before, after, given_up, made),
        on_heap(before, id),
    ensures
        on_heap(after, id),
        record(after, id) == (Record { roots: record(after, id).roots, ..record(before, id) }),
        record(after, id).roots + count(given_up, id) == record(before, id).roots + count(made, id),
{
    lemma_accounts_valid(before, after, given_up, made);
    let i = position(before, id);
    lemma_position(before, i);
}

/// Two changes of root counts, one after the other, are one change.
pub proof fn lemma_accounts_then(
    before: Seq<Record>,
    between: Seq<Record>,
    after: Seq<Record>,
    given_up_first: Seq<u64>,
    made_first: Seq<u64>,
    given_up_then: Seq<u64>,
    made_then: Seq<u64>,
)
    requires
        accounts(before, between, given_up_first, made_first),
        accounts(between, after, given_up_then, made_then),
    ensures
        accounts(before, after, given_up_first + given_up_then, made_first + made_then),
{
    assert forall|i: int|
        #![trigger after[i]]
        #![trigger before[i]]
        0 <= i < before.len() implies after[i] == (Record { roots: after[i].roots, ..before[i] })
        && after[i].roots + count(given_up_first + given_up_then, before[i].id) == before[i].roots
        + count(made_first + made_then, before[i].id) by {
        lemma_count_concat(given_up_first, given_up_then, before[i].id);
        lemma_count_concat(made_first, made_then, before[i].id);
        assert(between[i] == Record { roots: between[i].roots, ..before[i] });
        assert(after[i] == Record { roots: after[i].roots, ..between[i] });
    }
}

/// A handle that a heap accounts for refers to a rooted datum.
pub proof fn lemma_covers_rooted(s: Seq<Record>, ids: Seq<u64>)
    requires
        covers(s, ids),
    ensures
        all_rooted(s, ids),
{
    assert forall|k: int| 0 <= k < ids.len() implies rooted(s, #[trigger] ids[k]) by {
        lemma_count_bounds(ids, ids[k]);
    }
}

/// What is left of the handles that a heap accounted for, once some have
/// been given up and others made, is accounted for by the heap as it then
/// is.
pub proof fn lemma_covers_part(
    before: Seq<Record>,
    now: Seq<Record>,
    all: Seq<u64>,
    given_up: Seq<u64>,
    made: Seq<u64>,
    part: Seq<u64>,
)
    requires
        valid_heap(before),
        covers(before, all),
        accounts(before, now, given_up, made),
        forall|k: int| 0 <= k < made.len() ==> on_heap(before, #[trigger] made[k]),
        forall|k: int|
            0 <= k < part.len() ==> count(given_up, #[trigger] part[k]) + count(part, part[k])
                <= count(all, part[k]) + count(made, part[k]),
    ensures
        covers(now, part),
{
    assert forall|k: int| 0 <= k < part.len() implies on_heap(now, #[trigger] part[k]) && count(
        part,
        part[k],
    ) <= record(now, part[k]).roots by {
        let id = part[k];
        lemma_count_bounds(all, id);
        lemma_count_bounds(made, id);
        lemma_count_bounds(part, id);
        if all.contains(id) {
            let j = choose|j: int| 0 <= j < all.len() && all[j] == id;
            assert(count(all, all[j]) <= record(before, all[j]).roots);
        } else {
            let j = choose|j: int| 0 <= j < made.len() && made[j] == id;
            assert(on_heap(before, made[j]));
        }
        lemma_accounts_record(before, now, given_up, made, id);
    }
}

/// Whether a heap accounts for some handles does not depend on their order.
pub proof fn lemma_covers_same(s: Seq<Record>, ids: Seq<u64>, others: Seq<u64>)
    requires
        covers(s, ids),
        forall|id: u64| count(ids, id) == #[trigger] count(others, id),
    ensures
        covers(s, others),
{
    assert forall|k: int| 0 <= k < others.len() implies on_heap(s, #[trigger] others[k]) && count(
        others,
        others[k],
    ) <= record(s, others[k]).roots by {
        let id = others[k];
        lemma_count_bounds(others, id);
        lemma_count_bounds(ids, id);
        assert(count(ids, id) == count(others, id));
        let j = choose|j: int| 0 <= j < ids.len() && ids[j] == id;
        assert(on_heap(s, ids[j]));
    }
}

/// A heap that accounts for some handles accounts for the first of them,
/// and for the rest.
pub proof fn lemma_covers_split(s: Seq<Record>, first: Seq<u64>, rest: Seq<u64>)
    requires
        covers(s, first + rest),
    ensures
        covers(s, first),
        covers(s, rest),
{
    let all = first + rest;
    assert forall|k: int| 0 <= k < first.len() implies on_heap(s, #[trigger] first[k]) && count(
        first,
        first[k],
    ) <= record(s, first[k]).roots by {
        lemma_count_concat(first, rest, first[k]);
        assert(all[k] == first[k]);
    }
    assert forall|k: int| 0 <= k < rest.len() implies on_heap(s, #[trigger] rest[k]) && count(
        rest,
        rest[k],
    ) <= record(s, rest[k]).roots by {
        lemma_count_concat(first, rest, rest[k]);
        assert(all[first.len() + k] == rest[k]);
    }
}

/// Once the first of the handles that a heap accounted for are released,
/// the heap still accounts for the rest.
pub proof fn lemma_covers_released(
    before: Seq<Record>,
    now: Seq<Record>,
    first: Seq<u64>,
    rest: Seq<u64>,
)
    requires
        valid_heap(before),
        covers(before, first + rest),
        accounts(before, now, first, Seq::empty()),
    ensures
        covers(now, rest),
{
    assert forall|k: int| 0 <= k < rest.len() implies count(first, #[trigger] rest[k]) + count(
        rest,
        rest[k],
    ) <= count(first + rest, rest[k]) + count(Seq::<u64>::empty(), rest[k]) by {
        lemma_count_concat(first, rest, rest[k]);
    }
    lemma_covers_part(before, now, first + rest, first, Seq::empty(), rest);
}

/// Once handles to a datum of the heap are made, the heap accounts for
/// them together with those that it accounted for.
pub proof fn lemma_covers_made(
    before: Seq<Record>,
    now: Seq<Record>,
    held: Seq<u64>,
    made: Seq<u64>,
)
    requires
        valid_heap(before),
        covers(before, held),
        accounts(before, now, Seq::empty(), made),
        forall|k: int| 0 <= k < made.len() ==> on_heap(before, #[trigger] made[k]),
    ensures
        covers(now, held + made),
{
    let part = held + made;
    assert forall|k: int| 0 <= k < part.len() implies count(
        Seq::<u64>::empty(),
        #[trigger] part[k],
    ) + count(part, part[k]) <= count(held, part[k]) + count(made, part[k]) by {
        lemma_count_concat(held, made, part[k]);
    }
    lemma_covers_part(before, now, held, Seq::empty(), made, part);
}

} // verus!
