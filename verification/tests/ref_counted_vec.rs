use nanocube2::ref_counted_vec::{sorted_array_has_no_duplicates, RefCountedVec};

#[test]
fn ref_counted_vec_it_doesnt_smoke() {
    let mut v = RefCountedVec::<i32>::new();
    v.insert(1);
    v.insert(2);
    v.make_ref(0);
    v.make_ref(1);
    v.make_ref(0);
    v.release_ref(0);
    println!("This is our refcountedvec: {:?}", v);
    v.release_ref(0);
    println!("This is our refcountedvec: {:?}", v);
    println!("Value: {}", v.at(0));
    {
        *v.at_mut(0) = 3;
    }
    println!("Value: {}", v.at(0));
    println!("Compaction transposition map: {:?}", v.compact());
    println!("This is our refcountedvec: {:?}", v);
}

#[test]
fn the_smoke_sequence_leaves_one_slot() {
    let mut v = RefCountedVec::<i32>::new();
    assert_eq!(v.insert(1), 0);
    assert_eq!(v.insert(2), 1);
    assert_eq!(v.make_ref(0), 1);
    assert_eq!(v.make_ref(1), 1);
    assert_eq!(v.make_ref(0), 2);
    assert_eq!(v.release_ref(0), 1);
    assert_eq!(v.free_list, Vec::<usize>::new());
    assert_eq!(v.release_ref(0), 0);
    assert_eq!(v.free_list, vec![0]);
    *v.at_mut(0) = 3;
    assert_eq!(*v.at(0), 3);
    let moved = v.compact();
    assert_eq!(moved.len(), 1);
    assert_eq!(moved.get(&1), Some(&0));
    assert_eq!(v.values, vec![2]);
    assert_eq!(v.ref_counts, vec![1]);
    assert_eq!(v.free_list, Vec::<usize>::new());
    assert_eq!(v.len(), 1);
}

#[test]
fn insert_takes_the_slot_freed_last() {
    let mut v = RefCountedVec::<u8>::new();
    for k in 0..4 {
        let i = v.insert(k);
        v.make_ref(i);
    }
    v.release_ref(1);
    v.release_ref(2);
    assert_eq!(v.free_list, vec![1, 2]);
    assert_eq!(v.insert(9), 2);
    assert_eq!(v.values, vec![0, 1, 9, 3]);
    assert_eq!(v.ref_counts, vec![1, 0, 0, 1]);
    assert_eq!(v.insert(8), 1);
    assert_eq!(v.insert(7), 4);
    assert_eq!(v.values, vec![0, 8, 9, 3, 7]);
    assert_eq!(v.len(), 5);
}

#[test]
fn a_new_slot_has_count_zero() {
    let mut v = RefCountedVec::<u8>::new();
    assert_eq!(v.len(), 0);
    let i = v.insert(5);
    assert_eq!(v.ref_counts[i], 0);
    assert_eq!(v.free_list.len(), 0);
}

#[test]
fn compact_moves_the_tail_into_the_holes() {
    let mut v = RefCountedVec::<u32>::new();
    for k in 0..7 {
        let i = v.insert(10 + k);
        v.make_ref(i);
    }
    // free 4, 0 and 2, in that order: the free list is not sorted
    v.release_ref(4);
    v.release_ref(0);
    v.release_ref(2);
    v.make_ref(5);
    let moved = v.compact();
    // 6 goes to hole 0, 5 to hole 2; hole 4 is cut off
    assert_eq!(moved.len(), 2);
    assert_eq!(moved.get(&6), Some(&0));
    assert_eq!(moved.get(&5), Some(&2));
    assert_eq!(v.values, vec![16, 11, 15, 13]);
    assert_eq!(v.ref_counts, vec![1, 1, 2, 1]);
    assert!(v.free_list.is_empty());
}

#[test]
fn compact_cuts_off_free_slots_at_the_end() {
    let mut v = RefCountedVec::<u32>::new();
    for k in 0..5 {
        let i = v.insert(k);
        v.make_ref(i);
    }
    v.release_ref(0);
    v.release_ref(4);
    v.release_ref(3);
    let moved = v.compact();
    assert_eq!(moved.len(), 1);
    assert_eq!(moved.get(&2), Some(&0));
    assert_eq!(v.values, vec![2, 1]);
    assert_eq!(v.ref_counts, vec![1, 1]);
}

#[test]
fn compact_without_holes_changes_nothing() {
    let mut v = RefCountedVec::<u32>::new();
    for k in 0..3 {
        let i = v.insert(k);
        v.make_ref(i);
    }
    let moved = v.compact();
    assert!(moved.is_empty());
    assert_eq!(v.values, vec![0, 1, 2]);
}

#[test]
fn compact_of_an_all_free_pool_empties_it() {
    let mut v = RefCountedVec::<u32>::new();
    for k in 0..3 {
        let i = v.insert(k);
        v.make_ref(i);
    }
    v.release_ref(1);
    v.release_ref(0);
    v.release_ref(2);
    let moved = v.compact();
    assert!(moved.is_empty());
    assert_eq!(v.len(), 0);
    assert!(v.ref_counts.is_empty());
}

fn pool(values: &[u32], free: &[usize]) -> RefCountedVec<u32> {
    let mut v = RefCountedVec::<u32>::new();
    for &x in values {
        let i = v.insert(x);
        v.make_ref(i);
    }
    for &f in free {
        v.release_ref(f);
    }
    v
}

#[test]
fn extend_from_array_shifts_the_free_list_by_the_old_length() {
    let mut a = pool(&[1, 2, 3], &[1]);
    let b = pool(&[7, 8], &[0]);
    a.extend_from_array(&b);
    assert_eq!(a.values, vec![1, 2, 3, 7, 8]);
    assert_eq!(a.ref_counts, vec![1, 0, 1, 0, 1]);
    assert_eq!(a.free_list, vec![1, 3]);
}

#[test]
fn extend_applies_the_function_to_each_value() {
    let mut a = pool(&[1, 2], &[]);
    let b = pool(&[10, 20, 30], &[2]);
    a.extend(&b, |x: &u32| *x + 5);
    assert_eq!(a.values, vec![1, 2, 15, 25, 35]);
    assert_eq!(a.ref_counts, vec![1, 1, 1, 1, 0]);
    assert_eq!(a.free_list, vec![4]);
}

#[test]
fn clone_keeps_values_counts_and_free_list() {
    let a = pool(&[4, 5, 6], &[1]);
    let b = a.clone();
    assert_eq!(b.values, a.values);
    assert_eq!(b.ref_counts, a.ref_counts);
    assert_eq!(b.free_list, a.free_list);
}

#[test]
fn a_sorted_list_with_a_repeat_is_told_from_one_without() {
    assert!(sorted_array_has_no_duplicates(&vec![]));
    assert!(sorted_array_has_no_duplicates(&vec![4]));
    assert!(sorted_array_has_no_duplicates(&vec![0, 1, 5, 9]));
    assert!(!sorted_array_has_no_duplicates(&vec![0, 1, 1, 9]));
    assert!(!sorted_array_has_no_duplicates(&vec![3, 3]));
    assert!(!sorted_array_has_no_duplicates(&vec![0, 2, 7, 7]));
}
