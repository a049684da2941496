//! Bit-level facts about machine words, stated over `has_bit`.
use vstd::prelude::*;

verus! {

/// Number of words a set keeps inline, before its growable part.
pub const STACK_SETS: usize = 4;

/// Number of elements one word holds.
pub const SET_SIZE: usize = usize::BITS as usize;

/// The word that holds element `i`.
pub open spec fn cluster_of(i: usize) -> usize {
    i / SET_SIZE
}

/// The bit of its word that stands for element `i`.
pub open spec fn offset_of(i: usize) -> usize {
    i % SET_SIZE
}

/// An element is determined by its word and its bit.
pub proof fn lemma_cluster_offset(i: usize, j: usize)
    ensures
        offset_of(i) < usize::BITS,
        (cluster_of(i) == cluster_of(j) && offset_of(i) == offset_of(j)) <==> i == j,
{
    assert(usize::BITS == 32 || usize::BITS == 64);
}

/// Bit `j` of `x` is set (and `j` names a bit of the word).
pub open spec fn has_bit(x: usize, j: usize) -> bool {
    j < usize::BITS && (x >> j) & 1usize == 1usize
}

/// The number of set bits of `x` at positions below `k`.
pub open spec fn ones_below(x: usize, k: usize) -> nat
    decreases k,
{
    if k == 0 {
        0
    } else {
        ones_below(x, (k - 1) as usize) + if has_bit(x, (k - 1) as usize) {
            1nat
        } else {
            0nat
        }
    }
}

/// The number of set bits of `x`.
pub open spec fn popcount(x: usize) -> nat {
    ones_below(x, usize::BITS as usize)
}

/// The number of ones in the binary representation of `x`, counted bit by bit.
pub(crate) fn count_ones(x: usize) -> (r: u32)
    ensures
        r == popcount(x),
{
    let mut k: usize = 0;
    let mut n: u32 = 0;
    while k < SET_SIZE
        invariant
            k <= usize::BITS,
            n == ones_below(x, k),
            n <= k,
        decreases usize::BITS - k,
    {
        if (x >> k) & 1usize == 1usize {
            n = n + 1;
        }
        k = k + 1;
    }
    n
}

/// The number of zeros below the lowest one of `x`, or the width of the word when `x` is
/// zero, found bit by bit.
pub(crate) fn trailing_zeros(x: usize) -> (r: u32)
    ensures
        x == 0 ==> r == usize::BITS,
        x != 0 ==> r < usize::BITS && has_bit(x, r as usize) && forall|j: usize|
            j < r ==> !has_bit(x, j),
{
    if x == 0 {
        return usize::BITS;
    }
    let mut k: usize = 0;
    assert(x >> 0usize == x) by (bit_vector);
    while (x >> k) & 1usize == 0
        invariant
            k < usize::BITS,
            (x >> k) != 0,
            forall|j: usize| j < k ==> !has_bit(x, j),
        decreases usize::BITS - k,
    {
        let ghost next = (k + 1) as usize;
        assert(next < usize::BITS && (x >> next) != 0) by (bit_vector)
            requires
                k < usize::BITS,
                next == k + 1,
                (x >> k) != 0,
                (x >> k) & 1usize == 0,
        ;
        k = k + 1;
    }
    let r = k as u32;
    assert(r as usize == k);
    assert((x >> k) & 1usize == 1usize) by (bit_vector)
        requires
            (x >> k) & 1usize != 0,
    ;
    r
}

pub proof fn lemma_zero_has_no_bits(j: usize)
    ensures
        !has_bit(0usize, j),
{
    assert((0usize >> j) & 1usize != 1usize) by (bit_vector);
}

pub proof fn lemma_set_bit(x: usize, item: usize, j: usize)
    requires
        item < usize::BITS,
    ensures
        has_bit(x | (1usize << item), j) == (j == item || has_bit(x, j)),
{
    assert(j < usize::BITS ==> (((x | (1usize << item)) >> j) & 1usize == 1usize) == (j == item || (
    x >> j) & 1usize == 1usize)) by (bit_vector)
        requires
            item < usize::BITS,
    ;
}

pub proof fn lemma_clear_bit(x: usize, item: usize, j: usize)
    requires
        item < usize::BITS,
    ensures
        has_bit(x & !(1usize << item), j) == (j != item && has_bit(x, j)),
{
    assert(j < usize::BITS ==> (((x & !(1usize << item)) >> j) & 1usize == 1usize) == (j != item
        && (x >> j) & 1usize == 1usize)) by (bit_vector)
        requires
            item < usize::BITS,
    ;
}

pub proof fn lemma_mask_test(x: usize, item: usize)
    requires
        item < usize::BITS,
    ensures
        (((1usize << item) & x) == (1usize << item)) == has_bit(x, item),
{
    assert((((1usize << item) & x) == (1usize << item)) == ((x >> item) & 1usize == 1usize))
        by (bit_vector)
        requires
            item < usize::BITS,
    ;
}


pub proof fn lemma_shl_bit(x: usize, s: usize, j: usize)
    requires
        s < usize::BITS,
        j < usize::BITS,
    ensures
        has_bit(x << s, j) == (s <= j && has_bit(x, (j - s) as usize)),
{
    if j < usize::BITS {
        if s <= j {
            let d = (j - s) as usize;
            assert((((x << s) >> j) & 1usize) == ((x >> d) & 1usize)) by (bit_vector)
                requires
                    s < usize::BITS,
                    j < usize::BITS,
                    s <= j,
                    d == j - s,
            ;
        } else {
            assert((((x << s) >> j) & 1usize) == 0usize) by (bit_vector)
                requires
                    s < usize::BITS,
                    j < s,
            ;
        }
    }
}

/// No bit below the shift distance is set in a shifted word.
proof fn lemma_ones_below_shl_low(x: usize, s: usize, k: usize)
    requires
        k <= s < usize::BITS,
    ensures
        ones_below(x << s, k) == 0,
    decreases k,
{
    if k > 0 {
        lemma_ones_below_shl_low(x, s, (k - 1) as usize);
        lemma_shl_bit(x, s, (k - 1) as usize);
    }
}

/// Shifting a word left by `s` moves the ones below `t` to the positions below `s + t`.
proof fn lemma_ones_below_shl(x: usize, s: usize, t: usize)
    requires
        s < usize::BITS,
        s + t <= usize::BITS,
    ensures
        ones_below(x << s, (s + t) as usize) == ones_below(x, t),
    decreases t,
{
    if t == 0 {
        lemma_ones_below_shl_low(x, s, s);
    } else {
        lemma_ones_below_shl(x, s, (t - 1) as usize);
        lemma_shl_bit(x, s, (s + t - 1) as usize);
    }
}

/// The ones of `x << (BITS - k)` are exactly the ones of `x` below `k`.
pub proof fn lemma_popcount_shl(x: usize, k: usize)
    requires
        0 < k <= usize::BITS,
    ensures
        popcount(x << ((usize::BITS - k) as usize)) == ones_below(x, k),
{
    let s = (usize::BITS - k) as usize;
    lemma_ones_below_shl(x, s, k);
}

/// `ones_below` never decreases as the bound grows.
pub proof fn lemma_ones_below_monotone(x: usize, a: usize, b: usize)
    requires
        a <= b,
    ensures
        ones_below(x, a) <= ones_below(x, b),
    decreases b - a,
{
    if a < b {
        lemma_ones_below_monotone(x, a, (b - 1) as usize);
    }
}

/// A set bit at `k` is counted by every bound above `k`.
pub proof fn lemma_ones_below_strict(x: usize, k: usize, b: usize)
    requires
        k < b,
        has_bit(x, k),
    ensures
        ones_below(x, k) < ones_below(x, b),
{
    lemma_ones_below_monotone(x, (k + 1) as usize, b);
}

pub proof fn lemma_clear_low_bit(x: usize)
    requires
        x & 1usize == 1usize,
    ensures
        x >= 1,
        has_bit(x, 0),
        forall|j: usize| #[trigger] has_bit((x - 1) as usize, j) == (j != 0 && has_bit(x, j)),
{
    assert((x >> 0usize) & 1usize == 1usize && x >= 1) by (bit_vector)
        requires
            x & 1usize == 1usize,
    ;
    assert forall|j: usize| #[trigger] has_bit((x - 1) as usize, j) == (j != 0 && has_bit(x, j))
        by {
        assert(j < usize::BITS ==> ((((x - 1) as usize >> j) & 1usize == 1usize) == (j != 0 && (x
            >> j) & 1usize == 1usize))) by (bit_vector)
            requires
                x & 1usize == 1usize,
        ;
    }
}

pub proof fn lemma_sub_set_bit(x: usize, k: usize)
    requires
        has_bit(x, k),
    ensures
        x - (1usize << k) == x & !(1usize << k),
        x >= (1usize << k),
{
    assert(x - (1usize << k) == x & !(1usize << k) && x >= (1usize << k)) by (bit_vector)
        requires
            k < usize::BITS,
            (x >> k) & 1usize == 1usize,
    ;
}

/// The elements that a run of words holds, word `c` given by `word(c)`:
/// element `i` is bit `offset_of(i)` of word `cluster_of(i)`.
pub open spec fn elements(word: spec_fn(int) -> usize) -> Set<usize> {
    Set::new(|i: usize| has_bit(word(cluster_of(i) as int), offset_of(i)))
}

/// Words that are all zero hold nothing.
pub proof fn lemma_elements_empty(word: spec_fn(int) -> usize)
    requires
        forall|c: int| #[trigger] word(c) == 0,
    ensures
        elements(word) == Set::<usize>::empty(),
{
    assert forall|i: usize| !elements(word).contains(i) by {
        lemma_zero_has_no_bits(offset_of(i));
    }
    assert(elements(word) =~= Set::<usize>::empty());
}

/// Setting the bit of `i` in its word, and changing no other word, adds `i`.
pub proof fn lemma_elements_set_bit(a: spec_fn(int) -> usize, b: spec_fn(int) -> usize, i: usize)
    requires
        forall|c: int| c != cluster_of(i) ==> #[trigger] b(c) == a(c),
        b(cluster_of(i) as int) == a(cluster_of(i) as int) | (1usize << offset_of(i)),
    ensures
        elements(b) == elements(a).insert(i),
{
    assert forall|j: usize| elements(b).contains(j) == elements(a).insert(i).contains(j) by {
        lemma_cluster_offset(i, j);
        lemma_cluster_offset(j, i);
        if cluster_of(j) == cluster_of(i) {
            lemma_set_bit(a(cluster_of(i) as int), offset_of(i), offset_of(j));
        } else {
            assert(b(cluster_of(j) as int) == a(cluster_of(j) as int));
        }
    }
    assert(elements(b) =~= elements(a).insert(i));
}

/// Clearing the bit of `i` in its word, and changing no other word, takes `i` out.
pub proof fn lemma_elements_clear_bit(a: spec_fn(int) -> usize, b: spec_fn(int) -> usize, i: usize)
    requires
        forall|c: int| c != cluster_of(i) ==> #[trigger] b(c) == a(c),
        b(cluster_of(i) as int) == a(cluster_of(i) as int) & !(1usize << offset_of(i)),
    ensures
        elements(b) == elements(a).remove(i),
{
    assert forall|j: usize| elements(b).contains(j) == elements(a).remove(i).contains(j) by {
        lemma_cluster_offset(i, j);
        lemma_cluster_offset(j, i);
        if cluster_of(j) == cluster_of(i) {
            lemma_clear_bit(a(cluster_of(i) as int), offset_of(i), offset_of(j));
        } else {
            assert(b(cluster_of(j) as int) == a(cluster_of(j) as int));
        }
    }
    assert(elements(b) =~= elements(a).remove(i));
}

/// Setting bit `c` of `x` adds one to the count below every bound past `c`, if the bit was clear.
pub proof fn lemma_ones_below_set_bit(x: usize, c: usize, k: usize)
    requires
        c < usize::BITS,
        k <= usize::BITS,
    ensures
        ones_below(x | (1usize << c), k) == ones_below(x, k) + if c < k && !has_bit(x, c) {
            1nat
        } else {
            0nat
        },
    decreases k,
{
    if k > 0 {
        lemma_ones_below_set_bit(x, c, (k - 1) as usize);
        lemma_set_bit(x, c, (k - 1) as usize);
    }
}

/// The positions below `k` whose bit is set in `x`.
pub open spec fn bits_below(x: usize, k: usize) -> Set<usize> {
    Set::new(|j: usize| j < k && has_bit(x, j))
}

/// `ones_below` counts the positions of `bits_below`.
pub proof fn lemma_bits_below_len(x: usize, k: usize)
    ensures
        bits_below(x, k).finite(),
        bits_below(x, k).len() == ones_below(x, k),
    decreases k,
{
    if k == 0 {
        assert(bits_below(x, k) =~= Set::<usize>::empty());
    } else {
        let p = (k - 1) as usize;
        lemma_bits_below_len(x, p);
        if has_bit(x, p) {
            assert(bits_below(x, k) =~= bits_below(x, p).insert(p));
        } else {
            assert(bits_below(x, k) =~= bits_below(x, p));
        }
    }
}

/// Setting a bit that is already set leaves the word as it is.
pub proof fn lemma_set_present_bit(x: usize, c: usize)
    requires
        has_bit(x, c),
    ensures
        x | (1usize << c) == x,
{
    assert(x | (1usize << c) == x) by (bit_vector)
        requires
            c < usize::BITS,
            (x >> c) & 1usize == 1usize,
    ;
}

/// Element `k * SET_SIZE + j` is bit `j` of word `k`.
pub proof fn lemma_element_of(k: usize, j: usize)
    requires
        k < STACK_SETS,
        j < SET_SIZE,
    ensures
        k * SET_SIZE + j <= usize::MAX,
        cluster_of((k * SET_SIZE + j) as usize) == k,
        offset_of((k * SET_SIZE + j) as usize) == j,
{
    if usize::BITS == 64 {
        assert(k * 64 + j < 320);
        assert(((k * 64 + j) as usize) / 64 == k && ((k * 64 + j) as usize) % 64 == j);
    } else {
        assert(k * 32 + j < 160);
        assert(((k * 32 + j) as usize) / 32 == k && ((k * 32 + j) as usize) % 32 == j);
    }
}

} // verus!
