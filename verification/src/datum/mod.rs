//! Data: immutable records on a garbage-collected heap, and the handles that
//! keep them alive.

pub mod handles;
pub mod heap;
pub mod reach;

pub use self::heap::CollectStatistics;
pub use self::heap::Heap;
pub use self::heap::release_all;

use crate::sigil::Sigil;
use vstd::prelude::*;

verus! {

/// A reference to a datum.
///
/// While a value of this type exists, the datum is a root and will not be
/// garbage collected. A handle is created by [`Heap::allocate`] or by
/// [`Datum::retain`], and is given up with [`Datum::release`]; it can be
/// neither copied nor forged. A handle that is dropped without being
/// released leaves its root behind, and the datum is never collected. A
/// handle must only be used with the heap that created it.
#[derive(Debug)]
pub struct Datum {
    id: u64,
}

/// What the heap stores for one datum.
struct DatumInner {
    id: u64,
    mark: bool,
    roots: usize,
    enchantment: Sigil,
    pointers: Vec<Datum>,
    auxiliary: Vec<u8>,
}

/// The mathematical model of one datum on a heap.
///
/// The transient mark that the collector uses is not part of the model: it
/// is clear whenever the heap is at rest.
pub struct Record {
    /// The identity of the datum: the number of allocations that its heap
    /// had made before this one.
    pub id: u64,
    /// The number of handles that anchor the datum.
    pub roots: nat,
    /// The sigil that names the datum's dispatch class.
    pub enchantment: Sigil,
    /// The identities of the data that the datum points to, in order.
    pub pointers: Seq<u64>,
    /// The datum's opaque payload.
    pub auxiliary: Seq<u8>,
}

impl Datum {
    /// The identity of the datum that the handle refers to.
    pub closed spec fn id(&self) -> u64 {
        self.id
    }
}

impl DatumInner {
    /// The model of the datum: all that is stored but the mark.
    spec fn record(self) -> Record {
        Record {
            id: self.id,
            roots: self.roots as nat,
            enchantment: self.enchantment,
            pointers: ids(self.pointers@),
            auxiliary: self.auxiliary@,
        }
    }
}

/// The identities that a sequence of handles refers to.
pub open spec fn ids(handles: Seq<Datum>) -> Seq<u64> {
    handles.map_values(|handle: Datum| handle.id())
}

/// Whether the heap `s` holds a datum with identity `id`.
pub open spec fn on_heap(s: Seq<Record>, id: u64) -> bool {
    exists|i: int| 0 <= i < s.len() && #[trigger] s[i].id == id
}

/// The position on the heap `s` of the datum with identity `id`.
pub open spec fn position(s: Seq<Record>, id: u64) -> int {
    choose|i: int| 0 <= i < s.len() && #[trigger] s[i].id == id
}

/// The record on the heap `s` of the datum with identity `id`.
pub open spec fn record(s: Seq<Record>, id: u64) -> Record {
    s[position(s, id)]
}

/// Monotone age: a datum at a later position was allocated later.
pub open spec fn ordered(s: Seq<Record>) -> bool {
    forall|i: int, j: int| 0 <= i < j < s.len() ==> (#[trigger] s[i]).id < (#[trigger] s[j]).id
}

/// Back-only pointers: every pointer of a datum names a datum at a strictly
/// earlier position of the same heap.
pub open spec fn points_back(s: Seq<Record>) -> bool {
    forall|i: int, k: int|
        0 <= i < s.len() && 0 <= k < s[i].pointers.len() ==> on_heap(
            s.take(i),
            #[trigger] s[i].pointers[k],
        )
}

/// The two invariants of a heap.
pub open spec fn valid_heap(s: Seq<Record>) -> bool {
    ordered(s) && points_back(s)
}

/// The heap `s` with the root count of the datum `id` set to `roots`, and
/// nothing else changed.
pub open spec fn with_roots(s: Seq<Record>, id: u64, roots: nat) -> Seq<Record> {
    s.update(position(s, id), Record { roots, ..record(s, id) })
}

/// On an ordered heap, an identity stands at one position only.
pub proof fn lemma_position(s: Seq<Record>, i: int)
    requires
        ordered(s),
        0 <= i < s.len(),
    ensures
        on_heap(s, s[i].id),
        position(s, s[i].id) == i,
        record(s, s[i].id) == s[i],
{
    let p = position(s, s[i].id);
    if p < i {
        assert(s[p].id < s[i].id);
    } else if i < p {
        assert(s[i].id < s[p].id);
    }
}

/// A change of one root count keeps a heap valid, keeps every identity where
/// it was, and changes no other record.
pub proof fn lemma_with_roots(s: Seq<Record>, id: u64, roots: nat)
    requires
        valid_heap(s),
        on_heap(s, id),
    ensures
        valid_heap(with_roots(s, id, roots)),
        with_roots(s, id, roots).len() == s.len(),
        forall|other: u64| on_heap(with_roots(s, id, roots), other) == on_heap(s, other),
        forall|other: u64|
            on_heap(s, other) ==> #[trigger] record(with_roots(s, id, roots), other) == (if other
                == id {
                Record { roots, ..record(s, id) }
            } else {
                record(s, other)
            }),
{
    let t = with_roots(s, id, roots);
    let p = position(s, id);
    assert forall|i: int| 0 <= i < s.len() implies (#[trigger] t[i]).id == s[i].id && t[i].pointers
        == s[i].pointers by {}
    assert(ordered(t)) by {
        assert forall|i: int, j: int| 0 <= i < j < t.len() implies (#[trigger] t[i]).id < (
        #[trigger] t[j]).id by {
            assert(s[i].id < s[j].id);
        }
    }
    assert(points_back(t)) by {
        assert forall|i: int, k: int| 0 <= i < t.len() && 0 <= k < t[i].pointers.len() implies on_heap(
            t.take(i),
            #[trigger] t[i].pointers[k],
        ) by {
            assert(on_heap(s.take(i), s[i].pointers[k]));
            let j = choose|j: int|
                0 <= j < s.take(i).len() && #[trigger] s.take(i)[j].id == s[i].pointers[k];
            assert(t.take(i)[j].id == s[i].pointers[k]);
        }
    }
    assert forall|other: u64| on_heap(t, other) == on_heap(s, other) by {
        if on_heap(s, other) {
            let i = position(s, other);
            assert(t[i].id == other);
        }
        if on_heap(t, other) {
            let i = position(t, other);
            assert(s[i].id == other);
        }
    }
    assert forall|other: u64| on_heap(s, other) implies #[trigger] record(t, other) == (if other == id {
        Record { roots, ..record(s, id) }
    } else {
        record(s, other)
    }) by {
        let i = position(s, other);
        lemma_position(s, i);
        assert(t[i].id == other);
        lemma_position(t, i);
        lemma_position(s, p);
    }
}

} // verus!
