//! The set whose growable part holds only the words that were ever used.
//!
//! A directory word records which clusters past the inline ones have a word; those words are
//! kept in order of their clusters, so the word of cluster `STACK_SETS + c` sits at the rank of
//! bit `c` in the directory. The directory has one bit per cluster, which bounds the elements.
use core::marker::PhantomData;
use vstd::prelude::*;
use crate::bits::{
    cluster_of, elements, has_bit, lemma_cluster_offset, lemma_element_of,
    lemma_elements_clear_bit, lemma_elements_empty, lemma_elements_set_bit,
    lemma_ones_below_monotone, lemma_ones_below_set_bit, lemma_ones_below_strict, lemma_set_bit,
    lemma_set_present_bit, lemma_zero_has_no_bits, offset_of, ones_below, popcount, SET_SIZE,
    STACK_SETS,
};
use crate::elem::SetElem;
use crate::word::WordBitSet;
use vstd::std_specs::iter::IteratorSpec;

verus! {

/// A set of `usize` positions below `SET_SIZE * (SET_SIZE + STACK_SETS)`.
pub struct IncompleteBitSet<T> {
    sets: [WordBitSet; STACK_SETS],
    fallback_cluster: WordBitSet,
    fallback: Vec<WordBitSet>,
    _boo: PhantomData<T>,
}

impl<T> View for IncompleteBitSet<T> {
    type V = Set<usize>;

    open spec fn view(&self) -> Set<usize> {
        elements(|c: int| self.word_at(c))
    }
}

/// The bound below which every element of a set of this kind lies.
pub open spec fn capacity() -> int {
    SET_SIZE * (SET_SIZE + STACK_SETS)
}

impl<T> IncompleteBitSet<T> {
    /// The directory: bit `c` is set when cluster `STACK_SETS + c` has a word.
    pub closed spec fn directory(&self) -> usize {
        self.fallback_cluster.raw()
    }

    /// The growable part holds one word for each directory bit.
    pub closed spec fn wf(&self) -> bool {
        self.fallback@.len() == popcount(self.fallback_cluster.raw())
    }

    /// The bits of word `c`.
    pub closed spec fn word_at(&self, c: int) -> usize {
        if 0 <= c < STACK_SETS {
            self.sets[c].raw()
        } else if STACK_SETS <= c < STACK_SETS + SET_SIZE && has_bit(
            self.directory(),
            (c - STACK_SETS) as usize,
        ) {
            self.fallback@[ones_below(self.directory(), (c - STACK_SETS) as usize) as int].raw()
        } else {
            0
        }
    }

    /// How many words the growable part holds.
    pub closed spec fn fallback_len(&self) -> nat {
        self.fallback@.len()
    }

    /// The growable part holds one word per directory bit, and every element past the inline
    /// words lies in a cluster whose directory bit is set.
    pub proof fn lemma_directory(&self)
        requires
            self.wf(),
        ensures
            self.fallback_len() == popcount(self.directory()),
            forall|i: usize|
                #![trigger self@.contains(i)]
                self@.contains(i) && cluster_of(i) >= STACK_SETS ==> cluster_of(i) - STACK_SETS
                    < SET_SIZE && has_bit(self.directory(), (cluster_of(i) - STACK_SETS) as usize),
    {
        assert forall|i: usize|
            #![trigger self@.contains(i)]
            self@.contains(i) && cluster_of(i) >= STACK_SETS implies cluster_of(i) - STACK_SETS
                < SET_SIZE && has_bit(self.directory(), (cluster_of(i) - STACK_SETS) as usize) by {
            lemma_zero_has_no_bits(offset_of(i));
        }
    }

    /// The inline word of cluster `k`: bit `j` is set when `k * SET_SIZE + j` is an element.
    pub fn stack_set(&self, k: usize) -> (w: &WordBitSet)
        requires
            k < STACK_SETS,
        ensures
            forall|j: usize|
                j < SET_SIZE ==> (w@.contains(j) <==> self@.contains((k * SET_SIZE + j) as usize)),
    {
        proof {
            assert forall|j: usize| j < SET_SIZE implies (self.sets[k as int]@.contains(j)
                <==> self@.contains((k * SET_SIZE + j) as usize)) by {
                lemma_element_of(k, j);
            }
        }
        &self.sets[k]
    }

    /// An empty set, with no word in its growable part.
    pub fn new() -> (s: Self)
        ensures
            s.wf(),
            s@ == Set::<usize>::empty(),
            s.directory() == 0,
    {
        let s = IncompleteBitSet {
            sets: [WordBitSet::new(), WordBitSet::new(), WordBitSet::new(), WordBitSet::new()],
            fallback_cluster: WordBitSet::new(),
            fallback: Vec::new(),
            _boo: PhantomData,
        };
        proof {
            assert forall|c: int| #[trigger] s.word_at(c) == 0 by {
                if c >= STACK_SETS {
                    lemma_zero_has_no_bits((c - STACK_SETS) as usize);
                }
            }
            lemma_elements_empty(|c: int| s.word_at(c));
            assert(popcount(0) == 0) by {
                lemma_popcount_zero();
            }
        }
        s
    }

    /// The rank of a directory bit indexes a word of the growable part.
    proof fn lemma_rank_in_range(&self, e: usize)
        requires
            self.wf(),
            has_bit(self.directory(), e),
        ensures
            ones_below(self.directory(), e) < self.fallback@.len(),
    {
        lemma_ones_below_strict(self.directory(), e, usize::BITS as usize);
    }

    /// Where the word of cluster `STACK_SETS + c` sits in the growable part, if it has one.
    fn word_index(&self, c: usize) -> (r: Option<usize>)
        ensures
            r is Some <==> has_bit(self.directory(), c),
            r matches Some(k) ==> k == ones_below(self.directory(), c),
    {
        if c <= SET_SIZE {
            self.fallback_cluster.index(c)
        } else {
            None
        }
    }

    /// Adds `i` to the set; the first element of a cluster past the inline words gives that
    /// cluster a word, placed in cluster order.
    pub fn insert(&mut self, i: T)
        where T: SetElem
        requires
            old(self).wf(),
            i.position() < capacity(),
        ensures
            final(self).wf(),
            final(self)@ == old(self)@.insert(i.position()),
            final(self).directory() == if cluster_of(i.position()) < STACK_SETS {
                old(self).directory()
            } else {
                old(self).directory() | (1usize << ((cluster_of(i.position()) - STACK_SETS)
                    as usize))
            },
    {
        let item = i.index();
        let cluster = item / SET_SIZE;
        let bit = item % SET_SIZE;
        proof {
            lemma_cluster_offset(item, item);
            lemma_capacity_cluster(item);
        }
        if cluster >= STACK_SETS {
            let c = cluster - STACK_SETS;
            let ghost before = *self;
            let ghost dir = before.directory();
            if let Some(index) = self.fallback_cluster.index(c) {
                proof {
                    before.lemma_rank_in_range(c);
                    lemma_set_present_bit(dir, c);
                }
                self.fallback[index].insert(bit);
                proof {
                    assert forall|d: int| d != cluster_of(item) implies #[trigger] self.word_at(d)
                        == before.word_at(d) by {
                        if STACK_SETS <= d < STACK_SETS + SET_SIZE && has_bit(
                            dir,
                            (d - STACK_SETS) as usize,
                        ) {
                            let e = (d - STACK_SETS) as usize;
                            before.lemma_rank_in_range(e);
                            if e < c {
                                lemma_ones_below_strict(dir, e, c);
                            } else {
                                lemma_ones_below_strict(dir, c, e);
                            }
                        }
                    }
                    lemma_elements_set_bit(
                        |d: int| before.word_at(d),
                        |d: int| self.word_at(d),
                        item,
                    );
                }
            } else {
                self.fallback_cluster.insert(c);
                proof {
                    lemma_set_bit(dir, c, c);
                    lemma_ones_below_set_bit(dir, c, c);
                    lemma_ones_below_set_bit(dir, c, usize::BITS as usize);
                }
                let index = self.fallback_cluster.index(c).unwrap();
                let ghost r = ones_below(dir, c) as int;
                assert(index == r);
                proof {
                    lemma_ones_below_monotone(dir, c, usize::BITS as usize);
                }
                self.fallback.insert(index, WordBitSet::new());
                let ghost mid = self.fallback@;
                proof {
                    before.fallback@.insert_ensures(r, mid[r]);
                }
                self.fallback[index].insert(bit);
                proof {
                    assert(self.wf());
                    assert forall|d: int| d != cluster_of(item) implies #[trigger] self.word_at(d)
                        == before.word_at(d) by {
                        if STACK_SETS <= d < STACK_SETS + SET_SIZE {
                            let e = (d - STACK_SETS) as usize;
                            lemma_set_bit(dir, c, e);
                            if has_bit(dir, e) {
                                lemma_ones_below_set_bit(dir, c, e);
                                if e < c {
                                    lemma_ones_below_strict(dir, e, c);
                                } else {
                                    lemma_ones_below_monotone(dir, c, e);
                                }
                                before.lemma_rank_in_range(e);
                            }
                        }
                    }
                    assert(self.word_at(cluster_of(item) as int) == 0usize | (1usize << bit));
                    assert(before.word_at(cluster_of(item) as int) == 0usize);
                    lemma_elements_set_bit(
                        |d: int| before.word_at(d),
                        |d: int| self.word_at(d),
                        item,
                    );
                }
            }
        } else {
            let ghost before = *self;
            self.sets[cluster].insert(bit);
            proof {
                assert forall|d: int| d != cluster_of(item) implies #[trigger] self.word_at(d)
                    == before.word_at(d) by {}
                lemma_elements_set_bit(|d: int| before.word_at(d), |d: int| self.word_at(d), item);
            }
        }
    }

    /// Whether `i` is in the set.
    pub fn contains(&self, i: usize) -> (r: bool)
        requires
            self.wf(),
        ensures
            r == self@.contains(i),
    {
        let item = i.index();
        let cluster = item / SET_SIZE;
        proof {
            lemma_cluster_offset(item, item);
        }
        if cluster >= STACK_SETS {
            let c = cluster - STACK_SETS;
            if let Some(index) = self.word_index(c) {
                proof {
                    self.lemma_rank_in_range(c);
                }
                self.fallback[index].contains(item % SET_SIZE)
            } else {
                proof {
                    lemma_zero_has_no_bits(offset_of(item));
                }
                false
            }
        } else {
            self.sets[cluster].contains(item % SET_SIZE)
        }
    }

    /// Takes `i` out of the set. A cluster keeps its word once it has one.
    pub fn remove(&mut self, i: usize)
        requires
            old(self).wf(),
        ensures
            final(self).wf(),
            final(self)@ == old(self)@.remove(i),
            final(self).directory() == old(self).directory(),
    {
        let item = i.index();
        let cluster = item / SET_SIZE;
        let bit = item % SET_SIZE;
        proof {
            lemma_cluster_offset(item, item);
        }
        let ghost before = *self;
        if cluster >= STACK_SETS {
            let c = cluster - STACK_SETS;
            let ghost dir = before.directory();
            if let Some(index) = self.word_index(c) {
                proof {
                    before.lemma_rank_in_range(c);
                }
                self.fallback[index].remove(bit);
                proof {
                    assert forall|d: int| d != cluster_of(item) implies #[trigger] self.word_at(d)
                        == before.word_at(d) by {
                        if STACK_SETS <= d < STACK_SETS + SET_SIZE && has_bit(
                            dir,
                            (d - STACK_SETS) as usize,
                        ) {
                            let e = (d - STACK_SETS) as usize;
                            before.lemma_rank_in_range(e);
                            if e < c {
                                lemma_ones_below_strict(dir, e, c);
                            } else {
                                lemma_ones_below_strict(dir, c, e);
                            }
                        }
                    }
                    lemma_elements_clear_bit(
                        |d: int| before.word_at(d),
                        |d: int| self.word_at(d),
                        item,
                    );
                }
            } else {
                proof {
                    lemma_zero_has_no_bits(offset_of(item));
                    assert(self@ =~= old(self)@.remove(i));
                }
            }
        } else {
            self.sets[cluster].remove(bit);
            proof {
                assert forall|d: int| d != cluster_of(item) implies #[trigger] self.word_at(d)
                    == before.word_at(d) by {}
                lemma_elements_clear_bit(
                    |d: int| before.word_at(d),
                    |d: int| self.word_at(d),
                    item,
                );
            }
        }
    }

    /// Every element of the set lies below the capacity.
    pub proof fn lemma_within_capacity(&self, i: usize)
        requires
            self@.contains(i),
        ensures
            i < capacity(),
    {
        lemma_cluster_offset(i, i);
        if cluster_of(i) >= STACK_SETS + SET_SIZE {
            lemma_zero_has_no_bits(offset_of(i));
        }
        lemma_capacity_iff(i);
    }

    /// The words of the set: the inline words, then the words of the growable part in
    /// cluster order.
    pub fn into_iter(self) -> (it: std::vec::IntoIter<WordBitSet>)
        requires
            self.wf(),
        ensures
            it.remaining().len() == STACK_SETS + popcount(self.directory()),
            forall|k: int| 0 <= k < STACK_SETS ==> #[trigger] it.remaining()[k].raw()
                == self.word_at(k),
            forall|c: usize|
                #![trigger has_bit(self.directory(), c)]
                has_bit(self.directory(), c) ==> it.remaining()[STACK_SETS + ones_below(
                    self.directory(),
                    c,
                )].raw() == self.word_at(STACK_SETS + c),
    {
        let mut words: Vec<WordBitSet> = Vec::new();
        words.push(self.sets[0]);
        words.push(self.sets[1]);
        words.push(self.sets[2]);
        words.push(self.sets[3]);
        let mut rest = self.fallback;
        words.append(&mut rest);
        proof {
            broadcast use vstd::std_specs::vec::axiom_spec_into_iter;

            assert forall|c: usize| has_bit(self.directory(), c) implies words@[STACK_SETS
                + ones_below(self.directory(), c)].raw() == self.word_at(STACK_SETS + c) by {
                self.lemma_rank_in_range(c);
            }
        }
        words.into_iter()
    }
}

impl<U> Default for IncompleteBitSet<U> {
    fn default() -> (s: Self)
        ensures
            s.wf(),
            s@ == Set::<usize>::empty(),
            s.directory() == 0,
    {
        Self::new()
    }
}

proof fn lemma_ones_below_zero(k: usize)
    ensures
        ones_below(0, k) == 0,
    decreases k,
{
    if k > 0 {
        lemma_ones_below_zero((k - 1) as usize);
        lemma_zero_has_no_bits((k - 1) as usize);
    }
}

/// Elements below the capacity lie in the inline words or in a cluster the directory can name.
proof fn lemma_capacity_cluster(i: usize)
    requires
        i < capacity(),
    ensures
        cluster_of(i) < STACK_SETS + SET_SIZE,
{
    lemma_capacity_iff(i);
}

/// An element is below the capacity exactly when its cluster is one the set can hold.
proof fn lemma_capacity_iff(i: usize)
    ensures
        i < capacity() <==> cluster_of(i) < STACK_SETS + SET_SIZE,
{
    if usize::BITS == 64 {
        assert(capacity() == 64 * 68);
        assert(i < 64 * 68 <==> i / 64 < 68);
    } else {
        assert(capacity() == 32 * 36);
        assert(i < 32 * 36 <==> i / 32 < 36);
    }
}

proof fn lemma_popcount_zero()
    ensures
        popcount(0) == 0,
{
    lemma_ones_below_zero(usize::BITS as usize);
}

} // verus!
