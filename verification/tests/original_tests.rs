use bitset::{new_bit_set, BitSet, IncompleteBitSet};
use std::collections::HashSet;

#[test]
fn main_test_index() {
    let mut set: IncompleteBitSet<usize> = IncompleteBitSet::new();
    set.insert(4);
    set.insert(23);
    set.insert(55);
    set.insert(8);
    set.insert(0);
    assert_eq!(set.stack_set(0).index(4), Some(1));
    assert_eq!(set.stack_set(0).index(8), Some(2));
    assert_eq!(set.stack_set(0).index(23), Some(3));
    assert_eq!(set.stack_set(0).index(55), Some(4));
    assert_eq!(set.stack_set(0).index(0), Some(0));
}

#[test]
fn main_test_insert() {
    let mut set: BitSet<usize> = BitSet::new();
    for i in 0..500 {
        set.insert(i);
    }
    for i in 0..500 {
        assert!(set.contains(i));
    }
}

#[test]
fn main_test_remove() {
    let mut set: BitSet<usize> = BitSet::new();
    for i in 0..500 {
        set.insert(i);
    }
    for i in 0..500 {
        set.remove(i);
    }
    for i in 0..500 {
        assert!(!set.contains(i));
    }
}

// maximum capacity
#[test]
fn stress_test() {
    let mut set: BitSet<usize> = BitSet::new();
    for i in 0..43 * 100 {
        set.insert(i);
    }
    for i in 0..43 * 100 {
        assert!(set.contains(i));
    }
    for i in 0..43 * 100 {
        set.remove(i);
    }
    for i in 0..43 * 100 {
        assert!(!set.contains(i));
    }
}

#[test]
fn tests_test_index() {
    let mut set: IncompleteBitSet<usize> = IncompleteBitSet::new();
    set.insert(4);
    set.insert(23);
    set.insert(55);
    set.insert(8);
    set.insert(0);
    assert_eq!(set.stack_set(0).index(4), Some(1));
    assert_eq!(set.stack_set(0).index(8), Some(2));
    assert_eq!(set.stack_set(0).index(23), Some(3));
    assert_eq!(set.stack_set(0).index(55), Some(4));
    assert_eq!(set.stack_set(0).index(0), Some(0));
}

#[test]
fn tests_test_insert() {
    let mut set: BitSet<usize> = new_bit_set();
    for i in 0..500 {
        set.insert(i);
    }
    for i in 0..500 {
        assert!(set.contains(i));
    }
}

#[test]
fn tests_test_remove() {
    let mut set: BitSet<usize> = new_bit_set();
    for i in 0..500 {
        set.insert(i);
    }
    for i in 0..500 {
        set.remove(i);
    }
    for i in 0..500 {
        assert!(!set.contains(i));
    }
}

// max Capacity
#[test]
pub fn bitset_stress_test() {
    let mut set: BitSet<usize> = new_bit_set();
    for i in 0..43 * 100 {
        set.insert(i);
    }
    for i in 0..43 * 100 {
        assert!(set.contains(i));
    }
    for i in 0..43 * 100 {
        set.remove(i);
    }
    for i in 0..43 * 100 {
        assert!(!set.contains(i));
    }
}

#[test]
pub fn hashmap_stress_test() {
    let mut set = HashSet::<u32>::new();
    let r = 0..43 * 100;
    for i in r.clone() {
        assert!(set.insert(i));
    }
    for i in r.clone() {
        assert!(set.contains(&i));
    }
    for i in r.clone() {
        assert!(set.remove(&i));
    }
    for i in r {
        assert!(!set.contains(&i));
    }
}
