//! One machine word used as a set of bit positions.
use vstd::prelude::*;
use crate::bits::{
    bits_below, count_ones, has_bit, lemma_bits_below_len, lemma_clear_bit, lemma_clear_low_bit,
    lemma_mask_test, lemma_ones_below_strict, lemma_popcount_shl, lemma_set_bit, lemma_sub_set_bit,
    lemma_zero_has_no_bits, ones_below, popcount, trailing_zeros, SET_SIZE,
};

verus! {

/// A set of the positions `0..usize::BITS`, one bit each.
#[derive(Debug, Clone, Copy)]
pub struct WordBitSet {
    set: usize,
}

impl View for WordBitSet {
    type V = Set<usize>;

    open spec fn view(&self) -> Set<usize> {
        Set::new(|j: usize| has_bit(self.raw(), j))
    }
}

impl WordBitSet {
    /// The word itself.
    pub closed spec fn raw(&self) -> usize {
        self.set
    }

    /// The empty word.
    pub fn new() -> (w: Self)
        ensures
            w.raw() == 0,
            w@ == Set::<usize>::empty(),
    {
        let w = Self { set: 0 };
        proof {
            assert forall|j: usize| !w@.contains(j) by {
                lemma_zero_has_no_bits(j);
            }
            assert(w@ =~= Set::<usize>::empty());
        }
        w
    }

    /// The word, bit `j` standing for element `j`.
    pub fn as_raw(&self) -> (r: &usize)
        ensures
            *r == self.raw(),
    {
        &self.set
    }

    /// Sets the bit of `item`.
    pub fn insert(&mut self, item: usize)
        requires
            item < usize::BITS,
        ensures
            final(self).raw() == old(self).raw() | (1usize << item),
            final(self)@ == old(self)@.insert(item),
    {
        let mask = 1usize << item;
        self.set = self.set | mask;
        proof {
            assert forall|j: usize| self@.contains(j) == old(self)@.insert(item).contains(j) by {
                lemma_set_bit(old(self).raw(), item, j);
            }
            assert(self@ =~= old(self)@.insert(item));
        }
    }

    /// Clears the bit of `item`.
    pub fn remove(&mut self, item: usize)
        requires
            item < usize::BITS,
        ensures
            final(self).raw() == old(self).raw() & !(1usize << item),
            final(self)@ == old(self)@.remove(item),
    {
        let mask = 1usize << item;
        self.set = self.set & !mask;
        proof {
            assert forall|j: usize| self@.contains(j) == old(self)@.remove(item).contains(j) by {
                lemma_clear_bit(old(self).raw(), item, j);
            }
            assert(self@ =~= old(self)@.remove(item));
        }
    }

    /// Whether `item` is in the set. `item` is at most `SET_SIZE`; `SET_SIZE` itself, one past
    /// the last bit, is never in the set.
    pub fn contains(&self, item: usize) -> (r: bool)
        requires
            item <= SET_SIZE,
        ensures
            r == self@.contains(item),
    {
        if item >= usize::BITS as usize {
            return false;
        }
        let mask = 1usize << item;
        proof {
            lemma_mask_test(self.raw(), item);
        }
        (mask & self.set) == mask
    }

    /// The number of elements, counted as set bits.
    pub fn objects(&self) -> (r: u32)
        ensures
            r == popcount(self.raw()),
            r == self@.len(),
    {
        proof {
            self.lemma_objects_is_len();
        }
        count_ones(self.set)
    }

    /// The rank of `item`: how many elements of the set lie below it, if `item` is in the set.
    pub fn index(&self, item: usize) -> (r: Option<usize>)
        requires
            item <= SET_SIZE,
        ensures
            r is Some <==> self@.contains(item),
            r matches Some(k) ==> k == ones_below(self.raw(), item),
    {
        if self.contains(item) {
            if item == 0 {
                Some(0)
            } else {
                let shift = usize::BITS as usize - item;
                proof {
                    lemma_popcount_shl(self.raw(), item);
                }
                Some(count_ones(self.set << shift) as usize)
            }
        } else {
            None
        }
    }

    /// The count of set bits is the number of elements.
    pub proof fn lemma_objects_is_len(&self)
        ensures
            self@.finite(),
            self@.len() == popcount(self.raw()),
    {
        lemma_bits_below_len(self.raw(), usize::BITS as usize);
        assert(self@ =~= bits_below(self.raw(), usize::BITS as usize));
    }

    /// The ranks that `index` gives are distinct, follow the order of the elements, and lie
    /// below the count that `objects` gives.
    pub proof fn lemma_index_orders(&self, j: usize, k: usize)
        requires
            self@.contains(j),
            self@.contains(k),
            j < k,
        ensures
            ones_below(self.raw(), j) < ones_below(self.raw(), k),
            ones_below(self.raw(), k) < popcount(self.raw()),
    {
        lemma_ones_below_strict(self.raw(), j, k);
        lemma_ones_below_strict(self.raw(), k, usize::BITS as usize);
    }

    /// An iterator over the elements, smallest first.
    pub fn iter(&self) -> (it: Biterator)
        ensures
            it@ == self@,
    {
        Biterator { sets: self.set }
    }
}

/// The elements of a word that are still to be visited.
pub struct Biterator {
    sets: usize,
}

impl View for Biterator {
    type V = Set<usize>;

    open spec fn view(&self) -> Set<usize> {
        Set::new(|j: usize| has_bit(self.raw(), j))
    }
}

impl Biterator {
    /// The bits still to be visited.
    pub closed spec fn raw(&self) -> usize {
        self.sets
    }

    /// Successive calls of `next` hand out strictly increasing elements.
    pub proof fn lemma_next_increasing(a: Self, b: Self, k1: usize, k2: usize)
        requires
            a@.contains(k1),
            forall|j: usize| a@.contains(j) ==> k1 <= j,
            b@ == a@.remove(k1),
            b@.contains(k2),
        ensures
            k1 < k2,
    {
    }

    /// Hands out the smallest element still to be visited and drops it.
    pub fn next(&mut self) -> (r: Option<usize>)
        ensures
            r is None <==> old(self)@ == Set::<usize>::empty(),
            r is None ==> final(self)@ == old(self)@,
            r matches Some(k) ==> {
                &&& old(self)@.contains(k)
                &&& forall|j: usize| old(self)@.contains(j) ==> k <= j
                &&& final(self)@ == old(self)@.remove(k)
            },
    {
        if self.sets & 1 == 1 {
            proof {
                lemma_clear_low_bit(self.sets);
            }
            self.sets -= 1;
            proof {
                assert(self@ =~= old(self)@.remove(0));
                assert(old(self)@ != Set::<usize>::empty()) by {
                    assert(old(self)@.contains(0));
                }
            }
            Some(0)
        } else if self.sets == 0 {
            proof {
                assert forall|j: usize| !old(self)@.contains(j) by {
                    lemma_zero_has_no_bits(j);
                }
                assert(old(self)@ =~= Set::<usize>::empty());
            }
            None
        } else {
            let x = trailing_zeros(self.sets);
            let k = x as usize;
            proof {
                lemma_sub_set_bit(self.sets, k);
            }
            self.sets -= 1usize << k;
            proof {
                assert forall|j: usize| self@.contains(j) == old(self)@.remove(k).contains(j) by {
                    lemma_clear_bit(old(self).raw(), k, j);
                }
                assert(self@ =~= old(self)@.remove(k));
                assert(old(self)@.contains(k));
            }
            Some(k)
        }
    }
}

/// The steps of a run of `next` calls: before call `t` the iterator is `its[t]`, the call hands
/// out `ks[t]`, the smallest element still to be visited, and leaves `its[t + 1]`.
pub open spec fn is_run(its: Seq<Biterator>, ks: Seq<usize>) -> bool {
    &&& its.len() == ks.len() + 1
    &&& forall|t: int|
        #![trigger ks[t]]
        0 <= t < ks.len() ==> {
            &&& its[t]@.contains(ks[t])
            &&& forall|j: usize| its[t]@.contains(j) ==> ks[t] <= j
            &&& its[t + 1]@ == its[t]@.remove(ks[t])
        }
}

/// From step `t` on, a run that ends with nothing left hands out exactly the elements still
/// to be visited at step `t`, in increasing order.
proof fn lemma_run_suffix(its: Seq<Biterator>, ks: Seq<usize>, t: int)
    requires
        is_run(its, ks),
        its[ks.len() as int]@ == Set::<usize>::empty(),
        0 <= t <= ks.len(),
    ensures
        its[t]@.finite(),
        its[t]@.len() == ks.len() - t,
        forall|u: int| t <= u < ks.len() ==> its[t]@.contains(#[trigger] ks[u]),
        forall|j: usize|
            its[t]@.contains(j) ==> exists|u: int| t <= u < ks.len() && #[trigger] ks[u] == j,
        forall|a: int, b: int| t <= a < b < ks.len() ==> #[trigger] ks[a] < #[trigger] ks[b],
    decreases ks.len() - t,
{
    if t < ks.len() {
        lemma_run_suffix(its, ks, t + 1);
        let k = ks[t];
        assert(its[t]@ =~= its[t + 1]@.insert(k));
        assert(!its[t + 1]@.contains(k));
        assert forall|u: int| t <= u < ks.len() implies its[t]@.contains(#[trigger] ks[u]) by {
            if u > t {
                assert(its[t + 1]@.contains(ks[u]));
            }
        }
        assert forall|j: usize| its[t]@.contains(j) implies exists|u: int|
            t <= u < ks.len() && #[trigger] ks[u] == j by {
            if j != k {
                assert(its[t + 1]@.contains(j));
            }
        }
        assert forall|a: int, b: int| t <= a < b < ks.len() implies #[trigger] ks[a]
            < #[trigger] ks[b] by {
            if a == t {
                assert(its[t + 1]@.contains(ks[b]));
            }
        }
    }
}

/// A run of `next` calls on `w.iter()` that ends with nothing left hands out every element of
/// `w` exactly once, in strictly increasing order, as many as `objects` counts.
pub proof fn lemma_iteration_visits_all(w: WordBitSet, its: Seq<Biterator>, ks: Seq<usize>)
    requires
        is_run(its, ks),
        its[0]@ == w@,
        its[ks.len() as int]@ == Set::<usize>::empty(),
    ensures
        forall|a: int, b: int| 0 <= a < b < ks.len() ==> ks[a] < ks[b],
        forall|j: usize| w@.contains(j) <==> ks.contains(j),
        ks.len() == popcount(w.raw()),
{
    lemma_run_suffix(its, ks, 0);
    w.lemma_objects_is_len();
    assert forall|j: usize| w@.contains(j) <==> ks.contains(j) by {
        if ks.contains(j) {
            let u = choose|u: int| 0 <= u < ks.len() && ks[u] == j;
            assert(its[0]@.contains(ks[u]));
        }
    }
}

} // verus!
