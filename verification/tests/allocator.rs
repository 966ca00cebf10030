use ipmap::allocator::{Allocator, AllocatorHandle, BucketVec};

#[test]
fn bucketvec_move_to() {
    let spacing = 32;
    let mut a: BucketVec<u32> = BucketVec::new(spacing);
    let mut b: BucketVec<u32> = BucketVec::new(spacing);
    let slot_offset = a.alloc_slot();
    for i in 0..spacing {
        a.set_slot_entry(slot_offset, i, 1000 + i);
    }
    let slot = a.move_slot(slot_offset, &mut b);
    for i in 0..spacing {
        assert_eq!(*b.get_slot_entry(slot, i), 1000 + i);
    }

    let mut c: BucketVec<u32> = BucketVec::new(spacing / 2);
    let slot_offset = a.alloc_slot();
    for i in 0..spacing {
        a.set_slot_entry(slot_offset, i, 1000 + i);
    }
    let slot = a.move_slot(slot_offset, &mut c);
    for i in 0..spacing / 2 {
        assert_eq!(*c.get_slot_entry(slot, i), 1000 + i);
    }
}

#[test]
fn bucketvec_get_slot_entry() {
    let spacing = 16;
    let mut bucket: BucketVec<u32> = BucketVec::new(spacing);
    let slot = bucket.alloc_slot();
    for i in 0..spacing {
        bucket.set_slot_entry(slot, i, 1000 + i);
    }
    for i in 0..spacing {
        assert_eq!(*bucket.get_slot_entry(slot, i), 1000 + i);
    }
}

#[test]
fn bucketvec_get_slot_entry_mut() {
    let spacing = 16;
    let mut bucket: BucketVec<u32> = BucketVec::new(spacing);
    let slot = bucket.alloc_slot();
    for i in 0..spacing {
        bucket.set_slot_entry(slot, i, 1000 + i);
    }
    for i in 0..spacing {
        let x = bucket.get_slot_entry_mut(slot, i);
        *x += 1;
    }
    for i in 0..spacing {
        assert_eq!(*bucket.get_slot_entry_mut(slot, i), 1000 + i + 1);
    }
}

#[test]
fn bucketvec_insert_slot_entry() {
    let spacing = 16;
    let mut bucket: BucketVec<u32> = BucketVec::new(spacing);
    let slot = bucket.alloc_slot();
    for i in 0..spacing {
        bucket.insert_slot_entry(slot, 0, i);
    }
    bucket.insert_slot_entry(slot, 0, 123456);
    assert_eq!(*bucket.get_slot_entry(slot, 0), 123456);
    assert_eq!(*bucket.get_slot_entry(slot, spacing - 1), 1);
    assert_eq!(*bucket.get_slot_entry(slot, spacing - 2), 2);
}

#[test]
fn allocator_new() {
    Allocator::<u32>::new();
}

#[test]
fn allocator_alloc1() {
    let mut alloc = Allocator::<u32>::new();
    let _ = alloc.allocate(1);
}

#[test]
fn allocator_fill() {
    let mut alloc = Allocator::<u32>::new();
    let mut hdl = alloc.allocate(0);
    for i in 0..32 {
        alloc.insert(&mut hdl, 0, 1000 + i);
    }
    let mut hdl = alloc.allocate(0);
    for i in 0..32 {
        alloc.insert(&mut hdl, 0, 2000 + i);
    }
    println!("{:?}", hdl);
    println!("{:#?}", alloc);
}

#[test]
fn allocator_drain() {
    let mut alloc = Allocator::<u64>::new();
    let mut hdl = alloc.allocate(0);
    assert!(hdl.len == 0);
    let n = 32;
    for i in 0..n {
        alloc.insert(&mut hdl, 0, 1000 + i);
    }
    assert!(hdl.len == 32);
    for i in 0..n {
        let item = alloc.remove(&mut hdl, 0);
        assert!(item == 1031 - i);
    }
    assert!(hdl.len == 0);
}

#[test]
fn allocator_set() {
    let mut alloc = Allocator::<u32>::new();
    let hdl = alloc.allocate(32);
    for i in 0..32 {
        alloc.set(&hdl, i, 1000 + i);
    }

    for i in 0..32 {
        assert_eq!(*alloc.get(&hdl, i), 1000 + i);
    }
}

#[test]
fn allocator_get_mut() {
    let mut alloc = Allocator::<u32>::new();
    let hdl = alloc.allocate(32);
    for i in 0..32 {
        alloc.set(&hdl, i, 1000 + i);
    }

    for i in 0..32 {
        let x = alloc.get_mut(&hdl, i);
        *x += 1;
    }

    for i in 0..32 {
        assert_eq!(*alloc.get(&hdl, i), 1000 + i + 1);
    }
}

#[test]
fn allocator_remove_undoes_insert() {
    let mut alloc = Allocator::<u32>::new();
    let mut hdl = alloc.allocate(0);
    for i in 0..5 {
        alloc.insert(&mut hdl, i, 10 + i);
    }
    alloc.insert(&mut hdl, 2, 99);
    assert_eq!(hdl.len, 6);
    assert_eq!(*alloc.get(&hdl, 2), 99);
    assert_eq!(alloc.remove(&mut hdl, 2), 99);
    assert_eq!(hdl.len, 5);
    for i in 0..5 {
        assert_eq!(*alloc.get(&hdl, i), 10 + i);
    }
}

#[test]
fn allocator_moves_between_buckets() {
    // 2 items fit the bucket of spacing 2; the third moves the collection
    // to the bucket of spacing 4, and removals move it back.
    let mut alloc = Allocator::<u32>::new();
    let mut hdl = alloc.allocate(0);
    alloc.insert(&mut hdl, 0, 1);
    alloc.insert(&mut hdl, 1, 2);
    alloc.insert(&mut hdl, 2, 3);
    assert_eq!(hdl.len, 3);
    assert_eq!((*alloc.get(&hdl, 0), *alloc.get(&hdl, 1), *alloc.get(&hdl, 2)), (1, 2, 3));
    assert_eq!(alloc.remove(&mut hdl, 0), 1);
    assert_eq!(alloc.remove(&mut hdl, 0), 2);
    assert_eq!(alloc.remove(&mut hdl, 0), 3);
    assert_eq!(hdl.len, 0);
    alloc.free(&mut hdl);
    assert_eq!(hdl.offset, 0);
}

#[test]
fn allocator_replace_and_default() {
    let mut alloc: Allocator<u32> = Default::default();
    let hdl = alloc.allocate(4);
    alloc.set(&hdl, 3, 7);
    assert_eq!(alloc.replace(&hdl, 3, 8), 7);
    assert_eq!(*alloc.get(&hdl, 3), 8);
    // one slot of four u32 items is in use
    assert!(alloc.mem_usage() >= 16);
}

#[test]
fn bucketvec_free_reuses_slot_and_remove_entry() {
    let mut bucket: BucketVec<u32> = BucketVec::new(4);
    let s0 = bucket.alloc_slot();
    let s1 = bucket.alloc_slot();
    assert_eq!((s0, s1), (0, 4));
    bucket.free_slot(s0);
    assert_eq!(bucket.alloc_slot(), 0);
    for i in 0..4 {
        bucket.set_slot_entry(s1, i, 10 * i);
    }
    // removing index 1 shifts the rest left and puts the removed item last
    assert_eq!(bucket.remove_slot_entry(s1, 1), 10);
    assert_eq!(*bucket.get_slot_entry(s1, 1), 20);
    assert_eq!(*bucket.get_slot_entry(s1, 2), 30);
    assert_eq!(*bucket.get_slot_entry(s1, 3), 10);
    assert_eq!(bucket.replace_slot_entry(s1, 0, 5), 0);
    assert!(bucket.mem_usage() >= 8 * 4);
}

#[test]
fn handle_generate_and_choose_bucket() {
    let h = AllocatorHandle::generate(3, 12);
    assert_eq!((h.len, h.offset), (3, 12));
    assert_eq!(ipmap::allocator::choose_bucket(0), 0);
    assert_eq!(ipmap::allocator::choose_bucket(1), 0);
    assert_eq!(ipmap::allocator::choose_bucket(2), 1);
    assert_eq!(ipmap::allocator::choose_bucket(3), 2);
    assert_eq!(ipmap::allocator::choose_bucket(5), 3);
    assert_eq!(ipmap::allocator::choose_bucket(32), 8);
}

#[test]
fn bucketvec_remove_after_insert_loses_last_item() {
    let mut bucket: BucketVec<u32> = BucketVec::new(4);
    let slot = bucket.alloc_slot();
    for i in 0..4 {
        bucket.set_slot_entry(slot, i, i + 1);
    }
    // [1, 2, 3, 4] -> insert 9 at 1 -> [1, 9, 2, 3] -> remove 1 -> [1, 2, 3, 9]
    bucket.insert_slot_entry(slot, 1, 9);
    assert_eq!(bucket.remove_slot_entry(slot, 1), 9);
    let items: Vec<u32> = (0..4).map(|i| *bucket.get_slot_entry(slot, i)).collect();
    assert_eq!(items, vec![1, 2, 3, 9]);
}

#[test]
fn allocator_reuses_the_last_freed_slot() {
    let mut alloc = Allocator::<u32>::new();
    let mut a = alloc.allocate(0);
    let mut b = alloc.allocate(0);
    let (a_offset, b_offset) = (a.offset, b.offset);
    assert_eq!((a_offset, b_offset), (0, 1));
    alloc.free(&mut a);
    alloc.free(&mut b);
    assert_eq!(alloc.allocate(0).offset, b_offset);
    assert_eq!(alloc.allocate(0).offset, a_offset);
    assert_eq!(alloc.allocate(0).offset, 2);
}

#[test]
fn new_slots_hold_default_items() {
    let mut bucket: BucketVec<u32> = BucketVec::new(4);
    let s = bucket.alloc_slot();
    for i in 0..4 {
        assert_eq!(*bucket.get_slot_entry(s, i), 0);
    }
    let mut alloc = Allocator::<u64>::new();
    let hdl = alloc.allocate(3);
    for i in 0..3 {
        assert_eq!(*alloc.get(&hdl, i), 0);
    }
}
