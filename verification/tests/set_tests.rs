use bitset::bench::{bitset_stress_test as bench_bitset_workload, stress_test_hash_map};
use bitset::{new_bit_set, BitSet, IncompleteBitSet};

#[test]
fn dense_new_and_default_are_empty() {
    let mut a: BitSet<usize> = BitSet::new();
    let mut b: BitSet<usize> = BitSet::default();
    for i in 0..256 {
        assert!(!a.contains(i));
        assert!(!b.contains(i));
    }
    assert_eq!(a.into_iter().count(), 4);
    assert_eq!(b.into_iter().count(), 4);
}

#[test]
fn dense_insert_then_contains_far_element() {
    let mut set: BitSet<usize> = new_bit_set();
    set.insert(10_000);
    assert!(set.contains(10_000));
    assert!(!set.contains(9_999));
    assert!(!set.contains(3));
}

#[test]
fn dense_insert_is_idempotent_and_remove_undoes_it() {
    let mut set: BitSet<usize> = new_bit_set();
    set.insert(70);
    set.insert(70);
    assert!(set.contains(70));
    set.remove(70);
    assert!(!set.contains(70));
    let words: Vec<usize> = set.into_iter().map(|w| *w.as_raw()).collect();
    assert_eq!(words, vec![0, 0, 0, 0]);
}

#[test]
fn dense_remove_of_absent_far_element_changes_nothing() {
    let mut set: BitSet<usize> = new_bit_set();
    set.insert(5);
    set.remove(100_000);
    assert!(set.contains(5));
    assert!(!set.contains(100_000));
    assert_eq!(set.into_iter().count(), 4);
}

#[test]
fn dense_words_in_cluster_order() {
    let mut set: BitSet<usize> = new_bit_set();
    set.insert(1);
    set.insert(300);
    set.insert(700);
    let words: Vec<usize> = set.into_iter().map(|w| *w.as_raw()).collect();
    let mut expected = vec![0usize; 11];
    expected[0] = 1 << 1;
    expected[4] = 1 << (300 - 256);
    expected[10] = 1 << (700 - 640);
    assert_eq!(words, expected);
}

#[test]
fn incomplete_new_and_default_are_empty() {
    let a: IncompleteBitSet<usize> = IncompleteBitSet::new();
    let b: IncompleteBitSet<usize> = IncompleteBitSet::default();
    for i in 0..4352 {
        assert!(!a.contains(i));
        assert!(!b.contains(i));
    }
    assert_eq!(a.into_iter().count(), 4);
}

#[test]
fn incomplete_words_only_for_used_clusters_in_order() {
    let mut set: IncompleteBitSet<usize> = IncompleteBitSet::new();
    set.insert(1000);
    set.insert(300);
    assert!(set.contains(1000));
    assert!(set.contains(300));
    assert!(!set.contains(299));
    assert!(!set.contains(1_000_000));
    let words: Vec<usize> = set.into_iter().map(|w| *w.as_raw()).collect();
    assert_eq!(words, vec![0, 0, 0, 0, 1 << (300 - 256), 1 << (1000 - 960)]);
}

#[test]
fn incomplete_remove_keeps_word_of_cluster() {
    let mut set: IncompleteBitSet<usize> = IncompleteBitSet::new();
    set.insert(500);
    set.insert(501);
    set.remove(500);
    assert!(!set.contains(500));
    assert!(set.contains(501));
    set.remove(501);
    set.remove(3000);
    assert!(!set.contains(501));
    assert_eq!(set.into_iter().count(), 5);
}

#[test]
fn incomplete_holds_up_to_capacity() {
    let mut set: IncompleteBitSet<usize> = IncompleteBitSet::new();
    set.insert(64 * 68 - 1);
    set.insert(256);
    assert!(set.contains(64 * 68 - 1));
    assert!(set.contains(256));
    assert!(!set.contains(64 * 68));
}

#[test]
fn incomplete_stress_test() {
    let mut set: IncompleteBitSet<usize> = IncompleteBitSet::new();
    for i in 0..43 * 100 {
        set.insert(i);
    }
    for i in 0..43 * 100 {
        assert!(set.contains(i));
    }
    for i in 0..43 * 100 {
        set.remove(i);
    }
    for i in 0..43 * 100 {
        assert!(!set.contains(i));
    }
}

#[test]
fn bench_workloads_run() {
    bench_bitset_workload();
    stress_test_hash_map();
}

#[test]
fn incomplete_stack_set_shows_inline_words() {
    let mut set: IncompleteBitSet<usize> = IncompleteBitSet::new();
    set.insert(3);
    set.insert(64 + 5);
    set.insert(3 * 64 + 63);
    assert_eq!(*set.stack_set(0).as_raw(), 1 << 3);
    assert_eq!(*set.stack_set(1).as_raw(), 1 << 5);
    assert_eq!(*set.stack_set(2).as_raw(), 0);
    assert_eq!(*set.stack_set(3).as_raw(), 1 << 63);
}

#[test]
fn incomplete_lookup_of_cluster_without_word_is_false() {
    let mut set: IncompleteBitSet<usize> = IncompleteBitSet::new();
    set.insert(600);
    assert!(!set.contains(700));
    assert!(!set.contains(64 * 68 + 64));
    assert!(!set.contains(usize::MAX));
    set.remove(usize::MAX);
    assert!(set.contains(600));
    assert_eq!(set.into_iter().count(), 5);
}
