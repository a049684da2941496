//! The set: inline words for the first clusters, a vector of words for the rest.
use core::marker::PhantomData;
use vstd::prelude::*;
use crate::bits::{
    cluster_of, elements, has_bit, lemma_cluster_offset, lemma_elements_clear_bit,
    lemma_elements_empty, lemma_elements_set_bit, lemma_zero_has_no_bits, offset_of, SET_SIZE,
    STACK_SETS,
};
use crate::elem::SetElem;
use crate::word::WordBitSet;
use vstd::std_specs::iter::IteratorSpec;

verus! {

/// A set of `usize` positions. Element `i` is bit `i % SET_SIZE` of word `i / SET_SIZE`:
/// words `0..STACK_SETS` are inline, word `STACK_SETS + k` is `fallback[k]`, and words past the
/// end of `fallback` are empty.
pub struct BitSet<T> {
    sets: [WordBitSet; STACK_SETS],
    fallback: Vec<WordBitSet>,
    _boo: PhantomData<T>,
}

impl<T> View for BitSet<T> {
    type V = Set<usize>;

    open spec fn view(&self) -> Set<usize> {
        elements(|c: int| self.word_at(c))
    }
}

/// Adding a `usize` to a set adds that value itself.
pub proof fn lemma_insert_usize(a: BitSet<usize>, b: BitSet<usize>, i: usize)
    requires
        b@ == a@.insert(i.position()),
    ensures
        b@ == a@.insert(i),
        b@.contains(i),
{
}

/// An empty set.
#[must_use]
pub fn new_bit_set<T: SetElem>() -> (s: BitSet<T>)
    ensures
        s@ == Set::<usize>::empty(),
        s.fallback_len() == 0,
{
    BitSet::empty_set()
}

impl<T> BitSet<T> {
    /// The bits of word `c`.
    pub closed spec fn word_at(&self, c: int) -> usize {
        if 0 <= c < STACK_SETS {
            self.sets[c].raw()
        } else if STACK_SETS <= c < STACK_SETS + self.fallback@.len() {
            self.fallback@[c - STACK_SETS].raw()
        } else {
            0
        }
    }

    /// How many words the growable part holds.
    pub closed spec fn fallback_len(&self) -> nat {
        self.fallback@.len()
    }

    /// Looking up `i` reads a word that is there: an element of an inline word, or one whose
    /// word is not the one just past the end of the growable part (that word is read out of
    /// bounds).
    pub open spec fn can_probe(&self, i: usize) -> bool {
        cluster_of(i) < STACK_SETS || cluster_of(i) - STACK_SETS != self.fallback_len()
    }

    fn empty_set() -> (s: Self)
        ensures
            s@ == Set::<usize>::empty(),
            s.fallback_len() == 0,
    {
        let s = BitSet {
            sets: [WordBitSet::new(), WordBitSet::new(), WordBitSet::new(), WordBitSet::new()],
            fallback: Vec::new(),
            _boo: PhantomData,
        };
        proof {
            lemma_elements_empty(|c: int| s.word_at(c));
        }
        s
    }

    /// An empty set.
    pub fn new() -> (s: Self)
        ensures
            s@ == Set::<usize>::empty(),
            s.fallback_len() == 0,
    {
        Self::empty_set()
    }

    /// The length that the growable part has after `i` was added to a set whose part had
    /// `len` words: long enough to hold the word of `i`.
    pub open spec fn fallback_len_after_insert(len: nat, i: usize) -> nat {
        if cluster_of(i) < STACK_SETS || cluster_of(i) - STACK_SETS < len {
            len
        } else {
            (cluster_of(i) - STACK_SETS + 1) as nat
        }
    }

    /// Adds `i` to the set, growing the vector of words as far as the word of `i`.
    pub fn insert(&mut self, i: T)
        where T: SetElem
        ensures
            final(self)@ == old(self)@.insert(i.position()),
            final(self).fallback_len() == Self::fallback_len_after_insert(
                old(self).fallback_len(),
                i.position(),
            ),
            cluster_of(i.position()) < STACK_SETS ==> final(self).fallback_len()
                == old(self).fallback_len(),
            cluster_of(i.position()) >= STACK_SETS ==> final(self).fallback_len()
                == vstd::math::max(
                old(self).fallback_len() as int,
                cluster_of(i.position()) - STACK_SETS + 1,
            ),
    {
        let item = i.index();
        let cluster = item / SET_SIZE;
        let bit = item % SET_SIZE;
        proof {
            lemma_cluster_offset(item, item);
        }
        if cluster >= STACK_SETS {
            let cluster = cluster - STACK_SETS;
            while cluster >= self.fallback.len()
                invariant
                    forall|c: int| #[trigger] self.word_at(c) == old(self).word_at(c),
                    old(self).fallback@.len() <= self.fallback@.len() <= cluster + 1
                        || self.fallback@.len() == old(self).fallback@.len(),
                    cluster < usize::MAX,
                decreases cluster + 1 - self.fallback@.len(),
            {
                let ghost before = *self;
                self.fallback.push(WordBitSet::new());
                assert forall|c: int| #[trigger] self.word_at(c) == before.word_at(c) by {
                    if c == STACK_SETS + before.fallback@.len() {
                        assert(self.fallback@[c - STACK_SETS].raw() == 0);
                    }
                }
            }
            let ghost before = *self;
            self.fallback[cluster].insert(bit);
            proof {
                assert forall|c: int| c != cluster_of(item) implies #[trigger] self.word_at(c)
                    == before.word_at(c) by {}
                lemma_elements_set_bit(
                    |c: int| before.word_at(c),
                    |c: int| self.word_at(c),
                    item,
                );
            }
        } else {
            let ghost before = *self;
            self.sets[cluster].insert(bit);
            proof {
                assert forall|c: int| c != cluster_of(item) implies #[trigger] self.word_at(c)
                    == before.word_at(c) by {}
                lemma_elements_set_bit(
                    |c: int| before.word_at(c),
                    |c: int| self.word_at(c),
                    item,
                );
            }
        }
    }

    /// Whether `i` is in the set. The set is left as it is.
    pub fn contains(&mut self, i: usize) -> (r: bool)
        requires
            old(self).can_probe(i),
        ensures
            r == old(self)@.contains(i),
            *final(self) == *old(self),
    {
        let item = i.index();
        let cluster = item / SET_SIZE;
        proof {
            lemma_cluster_offset(item, item);
        }
        if cluster >= STACK_SETS {
            let cluster = cluster - STACK_SETS;
            if cluster > self.fallback.len() {
                proof {
                    lemma_zero_has_no_bits(offset_of(item));
                }
                false
            } else {
                self.fallback[cluster].contains(item % SET_SIZE)
            }
        } else {
            self.sets[cluster].contains(item - cluster * SET_SIZE)
        }
    }

    /// Takes `i` out of the set. The vector of words keeps its length.
    pub fn remove(&mut self, i: usize)
        requires
            old(self).can_probe(i),
        ensures
            final(self)@ == old(self)@.remove(i),
            final(self).fallback_len() == old(self).fallback_len(),
    {
        let item = i.index();
        let cluster = item / SET_SIZE;
        proof {
            lemma_cluster_offset(item, item);
        }
        if cluster >= STACK_SETS {
            let cluster = cluster - STACK_SETS;
            if cluster > self.fallback.len() {
                proof {
                    assert forall|j: usize| !(self@.contains(j) && j == item) by {
                        if j == item {
                            lemma_zero_has_no_bits(offset_of(item));
                        }
                    }
                    assert(self@ =~= old(self)@.remove(i));
                }
            } else {
                let ghost before = *self;
                self.fallback[cluster].remove(item % SET_SIZE);
                proof {
                    assert forall|c: int| c != cluster_of(item) implies #[trigger] self.word_at(c)
                        == before.word_at(c) by {}
                    lemma_elements_clear_bit(
                        |c: int| before.word_at(c),
                        |c: int| self.word_at(c),
                        item,
                    );
                }
            }
        } else {
            let ghost before = *self;
            self.sets[cluster].remove(item - cluster * SET_SIZE);
            proof {
                assert forall|c: int| c != cluster_of(item) implies #[trigger] self.word_at(c)
                    == before.word_at(c) by {}
                lemma_elements_clear_bit(
                    |c: int| before.word_at(c),
                    |c: int| self.word_at(c),
                    item,
                );
            }
        }
    }

    /// The words of the set in order: the inline words, then the growable part.
    pub fn into_iter(self) -> (it: std::vec::IntoIter<WordBitSet>)
        ensures
            it.remaining().len() == STACK_SETS + self.fallback_len(),
            forall|k: int|
                0 <= k < it.remaining().len() ==> #[trigger] it.remaining()[k].raw()
                    == self.word_at(k),
    {
        let mut words: Vec<WordBitSet> = Vec::new();
        words.push(self.sets[0]);
        words.push(self.sets[1]);
        words.push(self.sets[2]);
        words.push(self.sets[3]);
        let mut rest = self.fallback;
        words.append(&mut rest);
        proof {
            broadcast use vstd::std_specs::vec::axiom_spec_into_iter;
        }
        words.into_iter()
    }

    /// After `insert(i)`, `contains(i)` may be asked and answers true.
    pub proof fn lemma_insert_then_contains(a: Self, b: Self, i: usize)
        requires
            b@ == a@.insert(i),
            b.fallback_len() == Self::fallback_len_after_insert(a.fallback_len(), i),
        ensures
            b@.contains(i),
            b.can_probe(i),
    {
    }

    /// After `remove(i)`, `contains(i)` may be asked and answers false.
    pub proof fn lemma_remove_then_contains(a: Self, b: Self, i: usize)
        requires
            a.can_probe(i),
            b@ == a@.remove(i),
            b.fallback_len() == a.fallback_len(),
        ensures
            !b@.contains(i),
            b.can_probe(i),
    {
    }

    /// Removing an element that was just added, and was not there before, gives the set back.
    pub proof fn lemma_remove_undoes_insert(a: Self, b: Self, c: Self, i: usize)
        requires
            !a@.contains(i),
            b@ == a@.insert(i),
            c@ == b@.remove(i),
        ensures
            c@ == a@,
    {
        assert(c@ =~= a@);
    }

    /// Adding an element that is already there changes nothing.
    pub proof fn lemma_insert_idempotent(a: Self, b: Self, i: usize)
        requires
            a@.contains(i),
            b@ == a@.insert(i),
        ensures
            b@ == a@,
    {
        assert(b@ =~= a@);
    }

    /// The words that `into_iter` hands out hold exactly the elements of the set: element `i`
    /// is there when bit `offset_of(i)` of word `cluster_of(i)` is set.
    pub proof fn lemma_words_hold_elements(s: Self, words: Seq<WordBitSet>)
        requires
            words.len() == STACK_SETS + s.fallback_len(),
            forall|k: int| 0 <= k < words.len() ==> #[trigger] words[k].raw() == s.word_at(k),
        ensures
            forall|i: usize|
                #![trigger s@.contains(i)]
                s@.contains(i) <==> (cluster_of(i) < words.len() && has_bit(
                    words[cluster_of(i) as int].raw(),
                    offset_of(i),
                )),
    {
        assert forall|i: usize| s@.contains(i) <==> (cluster_of(i) < words.len() && has_bit(
            words[cluster_of(i) as int].raw(),
            offset_of(i),
        )) by {
            if cluster_of(i) >= words.len() {
                lemma_zero_has_no_bits(offset_of(i));
            }
        }
    }

    /// Every element lies in an inline word or in a word of the growable part; the words past
    /// its end are empty.
    pub proof fn lemma_elements_in_words(&self, i: usize)
        requires
            self@.contains(i),
        ensures
            cluster_of(i) < STACK_SETS + self.fallback_len(),
    {
        if cluster_of(i) >= STACK_SETS + self.fallback_len() {
            lemma_zero_has_no_bits(offset_of(i));
        }
    }

    /// `insert` grows the vector of words no further than the word of the new element: the
    /// vector never shrinks, it then reaches the word of `i`, and when it grew, its last word is
    /// the word of `i`, which holds `i`.
    pub proof fn lemma_insert_grows_to_element(a: Self, b: Self, i: usize)
        requires
            b@ == a@.insert(i),
            cluster_of(i) < STACK_SETS ==> b.fallback_len() == a.fallback_len(),
            cluster_of(i) >= STACK_SETS ==> b.fallback_len() == vstd::math::max(
                a.fallback_len() as int,
                cluster_of(i) - STACK_SETS + 1,
            ),
        ensures
            a.fallback_len() <= b.fallback_len(),
            cluster_of(i) < STACK_SETS + b.fallback_len(),
            b.fallback_len() > a.fallback_len() ==> cluster_of(i) == STACK_SETS + b.fallback_len()
                - 1,
            b@.contains(i),
    {
    }
}

impl<U> Default for BitSet<U> {
    fn default() -> (s: Self)
        ensures
            s@ == Set::<usize>::empty(),
            s.fallback_len() == 0,
    {
        Self::empty_set()
    }
}

} // verus!
