//! The workloads that the benchmarks time: every check they make is proved here.
use std::collections::HashSet;
use vstd::prelude::*;
use crate::bits::{cluster_of, STACK_SETS};
use crate::dense::BitSet;

verus! {

/// Number of elements the workloads put in and take out.
pub const WORKLOAD: usize = 1_000_000;

/// Fills a `BitSet` with `0..WORKLOAD`, checks every element is there, takes them all out and
/// checks every element is gone.
pub fn bitset_stress_test() {
    let mut set: BitSet<usize> = BitSet::default();
    let n = WORKLOAD;
    let mut i: usize = 0;
    while i < n
        invariant
            i <= n,
            set@ == Set::new(|j: usize| j < i),
            forall|j: usize| j < i ==> cluster_of(j) < STACK_SETS + set.fallback_len(),
        decreases n - i,
    {
        set.insert(i);
        assert(set@ =~= Set::new(|j: usize| j < i + 1));
        i = i + 1;
    }
    let mut i: usize = 0;
    while i < n
        invariant
            i <= n,
            set@ == Set::new(|j: usize| j < n),
            forall|j: usize| j < n ==> cluster_of(j) < STACK_SETS + set.fallback_len(),
        decreases n - i,
    {
        let found = set.contains(i);
        assert(found);
        i = i + 1;
    }
    let mut i: usize = 0;
    while i < n
        invariant
            i <= n,
            set@ == Set::new(|j: usize| i <= j < n),
            forall|j: usize| j < n ==> cluster_of(j) < STACK_SETS + set.fallback_len(),
        decreases n - i,
    {
        set.remove(i);
        assert(set@ =~= Set::new(|j: usize| i + 1 <= j < n));
        i = i + 1;
    }
    let mut i: usize = 0;
    while i < n
        invariant
            i <= n,
            set@ == Set::new(|j: usize| n <= j < n),
            forall|j: usize| j < n ==> cluster_of(j) < STACK_SETS + set.fallback_len(),
        decreases n - i,
    {
        let found = set.contains(i);
        assert(!found);
        i = i + 1;
    }
}

/// The same workload on a `HashSet<u32>`: every insertion is new, every element is found,
/// every removal finds its element, and afterwards nothing is found.
pub fn stress_test_hash_map() {
    broadcast use vstd::std_specs::hash::group_hash_axioms;

    let mut set: HashSet<u32> = HashSet::new();
    let n: u32 = 1_000_000;
    let mut i: u32 = 0;
    while i < n
        invariant
            i <= n,
            set@ == Set::new(|j: u32| j < i),
        decreases n - i,
    {
        let fresh = set.insert(i);
        assert(fresh);
        assert(set@ =~= Set::new(|j: u32| j < i + 1));
        i = i + 1;
    }
    let mut i: u32 = 0;
    while i < n
        invariant
            i <= n,
            set@ == Set::new(|j: u32| j < n),
        decreases n - i,
    {
        let found = set.contains(&i);
        assert(found);
        i = i + 1;
    }
    let mut i: u32 = 0;
    while i < n
        invariant
            i <= n,
            set@ == Set::new(|j: u32| i <= j < n),
        decreases n - i,
    {
        let removed = set.remove(&i);
        assert(removed);
        assert(set@ =~= Set::new(|j: u32| i + 1 <= j < n));
        i = i + 1;
    }
    let mut i: u32 = 0;
    while i < n
        invariant
            i <= n,
            set@ == Set::new(|j: u32| n <= j < n),
        decreases n - i,
    {
        let found = set.contains(&i);
        assert(!found);
        i = i + 1;
    }
}

} // verus!
