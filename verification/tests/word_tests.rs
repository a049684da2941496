use bitset::WordBitSet;

fn word_of(items: &[usize]) -> WordBitSet {
    let mut w = WordBitSet::new();
    for &i in items {
        w.insert(i);
    }
    w
}

#[test]
fn word_insert_sets_bits() {
    let w = word_of(&[3, 5, 9]);
    assert_eq!(*w.as_raw(), (1 << 3) | (1 << 5) | (1 << 9));
    assert!(w.contains(3));
    assert!(w.contains(9));
    assert!(!w.contains(4));
}

#[test]
fn word_contains_past_the_word_is_false() {
    let w = word_of(&[0, 63]);
    assert!(w.contains(63));
    assert!(!w.contains(64));
}

#[test]
fn word_remove_clears_one_bit() {
    let mut w = word_of(&[1, 2, 3]);
    w.remove(2);
    assert_eq!(*w.as_raw(), 0b1010);
    w.remove(7);
    assert_eq!(*w.as_raw(), 0b1010);
}

#[test]
fn word_objects_counts_elements() {
    assert_eq!(WordBitSet::new().objects(), 0);
    assert_eq!(word_of(&[0, 1, 40, 63]).objects(), 4);
    let mut full = WordBitSet::new();
    for i in 0..64 {
        full.insert(i);
    }
    assert_eq!(full.objects(), 64);
}

#[test]
fn word_index_is_rank() {
    let w = word_of(&[2, 7, 30, 63]);
    assert_eq!(w.index(2), Some(0));
    assert_eq!(w.index(7), Some(1));
    assert_eq!(w.index(30), Some(2));
    assert_eq!(w.index(63), Some(3));
    assert_eq!(w.index(8), None);
    assert_eq!(w.index(64), None);
    assert_eq!(WordBitSet::new().index(0), None);
}

#[test]
fn word_index_ranks_increase_below_objects() {
    let w = word_of(&[5, 6, 11, 40]);
    let ranks: Vec<usize> = [5, 6, 11, 40].iter().map(|&i| w.index(i).unwrap()).collect();
    assert_eq!(ranks, vec![0, 1, 2, 3]);
    assert!(ranks.iter().all(|&r| r < w.objects() as usize));
}

#[test]
fn biterator_visits_in_order() {
    let w = word_of(&[0, 3, 17, 63]);
    let mut it = w.iter();
    let mut seen = Vec::new();
    while let Some(k) = it.next() {
        seen.push(k);
    }
    assert_eq!(seen, vec![0, 3, 17, 63]);
    assert_eq!(it.next(), None);
}

#[test]
fn biterator_of_empty_word_is_empty() {
    let mut it = WordBitSet::new().iter();
    assert_eq!(it.next(), None);
}

#[test]
fn biterator_skips_to_lowest_bit() {
    let mut it = word_of(&[12, 40]).iter();
    assert_eq!(it.next(), Some(12));
    assert_eq!(it.next(), Some(40));
    assert_eq!(it.next(), None);
}
