use spellvm::datum::Datum;
use spellvm::datum::Heap;
use spellvm::sigil::Sigil;

/// Allocate a datum that points to the data of `pointers`.
fn allocate(heap: &mut Heap, enchantment: Sigil, pointers: &[&Datum], auxiliary: &[u8]) -> Datum {
    let handles: Vec<Datum> = pointers.iter().map(|datum| datum.retain(heap)).collect();
    let datum = heap.allocate(enchantment, &handles, auxiliary);
    for handle in handles {
        handle.release(heap);
    }
    datum
}

#[test]
fn test_empty_heap() {
    let mut heap = Heap::new();
    let stat = heap.collect_garbage();
    assert_eq!(stat.data_freed, 0);
}

#[test]
fn test_singleton_heap() {
    let sigil = Sigil(0);

    let mut heap = Heap::new();
    let datum = heap.allocate(sigil, &[], &[]);

    {
        let stat = heap.collect_garbage();
        assert_eq!(stat.data_freed, 0)
    }

    datum.release(&mut heap);

    {
        let stat = heap.collect_garbage();
        assert_eq!(stat.data_freed, 1)
    }

    {
        let stat = heap.collect_garbage();
        assert_eq!(stat.data_freed, 0)
    }
}

#[test]
fn test_pointers_heap() {
    let sigil = Sigil(0);

    let mut heap = Heap::new();
    let datum_a = allocate(&mut heap, sigil, &[], &[]);
    let datum_b = allocate(&mut heap, sigil, &[&datum_a], &[]);
    let datum_c = allocate(&mut heap, sigil, &[&datum_b], &[]);
    let datum_d = allocate(&mut heap, sigil, &[&datum_b, &datum_c], &[]);

    datum_a.release(&mut heap);
    datum_c.release(&mut heap);

    {
        let stat = heap.collect_garbage();
        assert_eq!(stat.data_freed, 0)
    }

    datum_d.release(&mut heap);

    {
        let stat = heap.collect_garbage();
        assert_eq!(stat.data_freed, 2)
    }

    datum_b.release(&mut heap);

    {
        let stat = heap.collect_garbage();
        assert_eq!(stat.data_freed, 2)
    }
}

#[test]
fn a_new_datum_has_one_root_and_its_contents() {
    let mut heap = Heap::new();
    let a = heap.allocate(Sigil(3), &[], &[1, 2, 3]);
    let b = allocate(&mut heap, Sigil(4), &[&a, &a], &[]);
    assert_eq!(heap.len(), 2);
    assert!(heap.contains(&a));
    assert!(heap.contains(&b));
    assert_eq!(heap.roots(&a), 1);
    assert_eq!(heap.roots(&b), 1);
    assert_eq!(a.enchantment(&heap), Sigil(3));
    assert_eq!(a.auxiliary(&heap), &[1, 2, 3]);
    assert_eq!(a.pointers(&heap).len(), 0);
    assert_eq!(b.enchantment(&heap), Sigil(4));
    assert_eq!(b.auxiliary(&heap), &[] as &[u8]);
    let pointers = b.pointers(&heap);
    assert_eq!(pointers.len(), 2);
    assert!(pointers[0].same(&a));
    assert!(pointers[1].same(&a));
    assert!(!a.same(&b));
}

#[test]
fn pointers_are_not_roots() {
    let mut heap = Heap::new();
    let a = heap.allocate(Sigil(0), &[], &[]);
    let b = allocate(&mut heap, Sigil(0), &[&a], &[]);
    assert_eq!(heap.roots(&a), 1);
    // Freeing the datum that points to `a` leaves the roots of `a` alone.
    b.release(&mut heap);
    assert_eq!(heap.collect_garbage().data_freed, 1);
    assert_eq!(heap.roots(&a), 1);
    assert_eq!(heap.len(), 1);
}

#[test]
fn retain_and_release_count_roots() {
    let mut heap = Heap::new();
    let a = heap.allocate(Sigil(0), &[], &[]);
    let second = a.retain(&mut heap);
    let third = second.retain(&mut heap);
    assert!(second.same(&a));
    assert_eq!(heap.roots(&a), 3);
    third.release(&mut heap);
    assert_eq!(heap.roots(&a), 2);
    a.release(&mut heap);
    assert_eq!(heap.roots(&second), 1);
    // One handle is left: the datum stays.
    assert_eq!(heap.collect_garbage().data_freed, 0);
    assert!(heap.contains(&second));
    second.release(&mut heap);
    assert_eq!(heap.collect_garbage().data_freed, 1);
    assert_eq!(heap.len(), 0);
}

#[test]
fn a_rooted_datum_is_never_freed() {
    let mut heap = Heap::new();
    let kept = heap.allocate(Sigil(1), &[], &[9]);
    let mut dropped = Vec::new();
    for i in 0..10u8 {
        dropped.push(heap.allocate(Sigil(2), &[], &[i]));
    }
    for handle in dropped {
        handle.release(&mut heap);
    }
    for _ in 0..3 {
        heap.collect_garbage();
        assert!(heap.contains(&kept));
        assert_eq!(heap.roots(&kept), 1);
    }
    assert_eq!(heap.len(), 1);
}

#[test]
fn what_a_root_reaches_is_kept() {
    let mut heap = Heap::new();
    let a = heap.allocate(Sigil(0), &[], &[0]);
    let b = allocate(&mut heap, Sigil(0), &[&a], &[1]);
    let c = allocate(&mut heap, Sigil(0), &[&b], &[2]);
    let d = allocate(&mut heap, Sigil(0), &[&c], &[3]);
    let c_again = c.retain(&mut heap);
    a.release(&mut heap);
    b.release(&mut heap);
    c.release(&mut heap);
    d.release(&mut heap);
    // Only `c` is rooted: it keeps `b` and `a`, and `d` goes.
    assert_eq!(heap.collect_garbage().data_freed, 1);
    assert_eq!(heap.len(), 3);
    let b_found = &c_again.pointers(&heap)[0];
    assert_eq!(b_found.auxiliary(&heap), &[1]);
    let a_found = &b_found.pointers(&heap)[0];
    assert_eq!(a_found.auxiliary(&heap), &[0]);
    assert_eq!(heap.roots(a_found), 0);
}

#[test]
fn garbage_is_counted_and_gone() {
    let mut heap = Heap::new();
    let a = heap.allocate(Sigil(0), &[], &[]);
    let b = allocate(&mut heap, Sigil(0), &[&a], &[]);
    let c = allocate(&mut heap, Sigil(0), &[&a], &[]);
    let d = heap.allocate(Sigil(0), &[], &[]);
    b.release(&mut heap);
    d.release(&mut heap);
    a.release(&mut heap);
    // `c` keeps `a`; `b` and `d` are garbage, in the middle and at the end.
    let before = heap.len();
    let stat = heap.collect_garbage();
    assert_eq!(stat.data_freed, 2);
    assert_eq!(heap.len(), before - 2);
    assert!(heap.contains(&c));
    assert_eq!(c.pointers(&heap).len(), 1);
    assert!(heap.contains(&c.pointers(&heap)[0]));
}

#[test]
fn garbage_below_a_survivor_is_freed() {
    let mut heap = Heap::new();
    let old = heap.allocate(Sigil(0), &[], &[1]);
    let young = heap.allocate(Sigil(0), &[], &[2]);
    old.release(&mut heap);
    // The older datum is garbage, the newer one is rooted.
    assert_eq!(heap.collect_garbage().data_freed, 1);
    assert_eq!(heap.len(), 1);
    assert!(heap.contains(&young));
    assert_eq!(young.auxiliary(&heap), &[2]);
    assert_eq!(heap.roots(&young), 1);
}

#[test]
fn collecting_twice_frees_nothing_more() {
    let mut heap = Heap::new();
    let a = heap.allocate(Sigil(0), &[], &[]);
    let b = allocate(&mut heap, Sigil(0), &[&a], &[]);
    let c = allocate(&mut heap, Sigil(0), &[&a, &b], &[]);
    a.release(&mut heap);
    c.release(&mut heap);
    assert_eq!(heap.collect_garbage().data_freed, 1);
    assert_eq!(heap.collect_garbage().data_freed, 0);
    assert_eq!(heap.collect_garbage().data_freed, 0);
    assert_eq!(heap.len(), 2);
    assert!(heap.contains(&b));
}

#[test]
fn survivors_are_unchanged() {
    let mut heap = Heap::new();
    let a = heap.allocate(Sigil(10), &[], &[1, 2]);
    let junk = heap.allocate(Sigil(11), &[], &[3]);
    let b = allocate(&mut heap, Sigil(12), &[&a, &a], &[4, 5, 6]);
    let more_junk = allocate(&mut heap, Sigil(13), &[&b], &[]);
    junk.release(&mut heap);
    more_junk.release(&mut heap);
    a.release(&mut heap);
    for _ in 0..2 {
        heap.collect_garbage();
        assert_eq!(b.enchantment(&heap), Sigil(12));
        assert_eq!(b.auxiliary(&heap), &[4, 5, 6]);
        assert_eq!(heap.roots(&b), 1);
        let pointers = b.pointers(&heap);
        assert_eq!(pointers.len(), 2);
        assert!(pointers[0].same(&pointers[1]));
        assert_eq!(pointers[0].enchantment(&heap), Sigil(10));
        assert_eq!(pointers[0].auxiliary(&heap), &[1, 2]);
        assert_eq!(pointers[0].pointers(&heap).len(), 0);
        assert_eq!(heap.roots(&pointers[0]), 0);
    }
    assert_eq!(heap.len(), 2);
}

#[test]
fn identities_are_not_used_again() {
    let mut heap = Heap::new();
    let a = heap.allocate(Sigil(0), &[], &[]);
    let b = heap.allocate(Sigil(0), &[], &[]);
    let stale = b.retain(&mut heap);
    b.release(&mut heap);
    stale.release(&mut heap);
    assert_eq!(heap.collect_garbage().data_freed, 1);
    let c = heap.allocate(Sigil(0), &[], &[]);
    assert!(!c.same(&a));
    assert_eq!(heap.len(), 2);
    assert!(heap.contains(&a));
    assert!(heap.contains(&c));
}

#[test]
fn a_large_heap_is_collected() {
    let mut heap = Heap::new();
    let mut previous = heap.allocate(Sigil(0), &[], &[]);
    let mut handles = Vec::new();
    for i in 0..500u32 {
        let next = allocate(&mut heap, Sigil(i), &[&previous], &[]);
        handles.push(previous);
        previous = next;
    }
    // Keep every tenth handle of the chain, and the last datum.
    let mut kept = Vec::new();
    for (i, handle) in handles.into_iter().enumerate() {
        if i % 10 == 0 {
            kept.push(handle);
        } else {
            handle.release(&mut heap);
        }
    }
    assert_eq!(heap.collect_garbage().data_freed, 0);
    previous.release(&mut heap);
    // The chain above the last kept handle (position 490) is garbage.
    assert_eq!(heap.collect_garbage().data_freed, 10);
    assert_eq!(heap.len(), 491);
    for handle in kept {
        handle.release(&mut heap);
    }
    assert_eq!(heap.collect_garbage().data_freed, 491);
    assert_eq!(heap.len(), 0);
}

#[test]
fn allocations_stand_in_order_and_survivors_keep_it() {
    let mut heap = Heap::new();
    let mut handles = Vec::new();
    for i in 0..8u8 {
        let datum = heap.allocate(Sigil(0), &[], &[i]);
        // A new datum stands after all the others.
        assert_eq!(heap.position(&datum), i as usize);
        handles.push(datum);
    }
    // Free the data with an even payload.
    let mut kept = Vec::new();
    for (i, handle) in handles.into_iter().enumerate() {
        if i % 2 == 0 {
            handle.release(&mut heap);
        } else {
            kept.push(handle);
        }
    }
    assert_eq!(heap.collect_garbage().data_freed, 4);
    for (i, handle) in kept.iter().enumerate() {
        assert_eq!(heap.position(handle), i);
        assert_eq!(handle.auxiliary(&heap), &[(2 * i + 1) as u8]);
    }
    // A datum allocated now stands after the survivors.
    let young = heap.allocate(Sigil(0), &[], &[]);
    assert_eq!(heap.position(&young), 4);
    assert_eq!(heap.position(&kept[3]), 3);
}

#[test]
fn release_all_gives_up_every_handle() {
    let mut heap = Heap::new();
    let a = heap.allocate(Sigil(0), &[], &[]);
    let b = heap.allocate(Sigil(0), &[], &[]);
    let handles = vec![a.retain(&mut heap), b.retain(&mut heap), a.retain(&mut heap)];
    assert_eq!(heap.roots(&a), 3);
    assert_eq!(heap.roots(&b), 2);
    spellvm::datum::release_all(&mut heap, handles);
    assert_eq!(heap.roots(&a), 1);
    assert_eq!(heap.roots(&b), 1);
    spellvm::datum::release_all(&mut heap, vec![]);
    assert_eq!(heap.roots(&a), 1);
}
