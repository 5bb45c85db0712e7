//! Binary hypervectors as `Vec<bool>`: element-wise XOR, set-bit counts and the
//! Hamming distance, with the algebraic facts the rest of the crate relies on.

use vstd::prelude::*;

verus! {

/// Number of `true` entries of a bit sequence.
pub open spec fn count_true(s: Seq<bool>) -> nat
    decreases s.len(),
{
    if s.len() == 0 {
        0
    } else {
        count_true(s.drop_last()) + if s.last() { 1nat } else { 0nat }
    }
}

/// Element-wise XOR of two bit sequences (the length is that of `a`).
pub open spec fn xor_seq(a: Seq<bool>, b: Seq<bool>) -> Seq<bool> {
    Seq::new(a.len(), |i: int| a[i] != b[i])
}

/// Hamming distance: the number of positions at which the two sequences differ.
pub open spec fn hamming(a: Seq<bool>, b: Seq<bool>) -> nat {
    count_true(xor_seq(a, b))
}

/// `count_true` of a prefix grows by the next bit.
pub proof fn lemma_count_prefix_step(s: Seq<bool>, i: int)
    requires
        0 <= i < s.len(),
    ensures
        count_true(s.take(i + 1)) == count_true(s.take(i)) + if s[i] { 1nat } else { 0nat },
{
    assert(s.take(i + 1).drop_last() =~= s.take(i));
}

/// A sequence never has more set bits than entries.
pub proof fn lemma_count_le_len(s: Seq<bool>)
    ensures
        count_true(s) <= s.len(),
    decreases s.len(),
{
    if s.len() > 0 {
        lemma_count_le_len(s.drop_last());
    }
}

/// The all-false sequence has no set bits.
pub proof fn lemma_count_all_false(s: Seq<bool>)
    requires
        forall|i: int| 0 <= i < s.len() ==> !s[i],
    ensures
        count_true(s) == 0,
    decreases s.len(),
{
    if s.len() > 0 {
        lemma_count_all_false(s.drop_last());
    }
}

/// The all-true sequence has every bit set.
pub proof fn lemma_count_all_true(s: Seq<bool>)
    requires
        forall|i: int| 0 <= i < s.len() ==> s[i],
    ensures
        count_true(s) == s.len(),
    decreases s.len(),
{
    if s.len() > 0 {
        lemma_count_all_true(s.drop_last());
    }
}

/// Setting a clear bit adds one to the count.
pub proof fn lemma_count_set_bit(s: Seq<bool>, k: int)
    requires
        0 <= k < s.len(),
        !s[k],
    ensures
        count_true(s.update(k, true)) == count_true(s) + 1,
    decreases s.len(),
{
    let t = s.update(k, true);
    if k == s.len() - 1 {
        assert(t.drop_last() =~= s.drop_last());
    } else {
        assert(t.drop_last() =~= s.drop_last().update(k, true));
        lemma_count_set_bit(s.drop_last(), k);
    }
}

/// Counting splits over a cut point: `count(s[..b]) == count(s[..a]) + count(s[a..b])`.
pub proof fn lemma_count_split(s: Seq<bool>, a: int, b: int)
    requires
        0 <= a <= b <= s.len(),
    ensures
        count_true(s.subrange(0, b)) == count_true(s.subrange(0, a)) + count_true(
            s.subrange(a, b),
        ),
    decreases b - a,
{
    if a < b {
        lemma_count_split(s, a, b - 1);
        assert(s.subrange(0, b).drop_last() =~= s.subrange(0, b - 1));
        assert(s.subrange(a, b).drop_last() =~= s.subrange(a, b - 1));
    } else {
        assert(s.subrange(a, b) =~= Seq::<bool>::empty());
    }
}

/// Bits outside `[lo, hi)` that are all clear do not contribute to the count.
pub proof fn lemma_count_within(s: Seq<bool>, lo: int, hi: int)
    requires
        0 <= lo <= hi <= s.len(),
        forall|i: int| 0 <= i < s.len() && !(lo <= i < hi) ==> !s[i],
    ensures
        count_true(s) == count_true(s.subrange(lo, hi)),
{
    lemma_count_split(s, lo, hi);
    lemma_count_split(s, hi, s.len() as int);
    lemma_count_all_false(s.subrange(0, lo));
    lemma_count_all_false(s.subrange(hi, s.len() as int));
    assert(s.subrange(0, s.len() as int) =~= s);
}

/// When the set bits of `u` and `v` never meet, XOR counts both.
pub proof fn lemma_count_xor_disjoint(u: Seq<bool>, v: Seq<bool>)
    requires
        u.len() == v.len(),
        forall|i: int| 0 <= i < u.len() ==> !(u[i] && v[i]),
    ensures
        count_true(xor_seq(u, v)) == count_true(u) + count_true(v),
    decreases u.len(),
{
    if u.len() > 0 {
        assert(xor_seq(u, v).drop_last() =~= xor_seq(u.drop_last(), v.drop_last()));
        lemma_count_xor_disjoint(u.drop_last(), v.drop_last());
    }
}

/// When every set bit of `v` is set in `u`, XOR counts the difference.
pub proof fn lemma_count_xor_subset(u: Seq<bool>, v: Seq<bool>)
    requires
        u.len() == v.len(),
        forall|i: int| 0 <= i < u.len() && v[i] ==> u[i],
    ensures
        count_true(v) <= count_true(u),
        count_true(xor_seq(u, v)) == count_true(u) - count_true(v),
    decreases u.len(),
{
    if u.len() > 0 {
        assert(xor_seq(u, v).drop_last() =~= xor_seq(u.drop_last(), v.drop_last()));
        lemma_count_xor_subset(u.drop_last(), v.drop_last());
    }
}

/// The Hamming distance is symmetric.
pub proof fn lemma_hamming_symmetric(a: Seq<bool>, b: Seq<bool>)
    requires
        a.len() == b.len(),
    ensures
        hamming(a, b) == hamming(b, a),
{
    assert(xor_seq(a, b) =~= xor_seq(b, a));
}

/// A hypervector is at distance zero from itself.
pub proof fn lemma_hamming_self(a: Seq<bool>)
    ensures
        hamming(a, a) == 0,
{
    lemma_count_all_false(xor_seq(a, a));
}

/// The Hamming distance never exceeds the dimension.
pub proof fn lemma_hamming_bounded(a: Seq<bool>, b: Seq<bool>)
    ensures
        hamming(a, b) <= a.len(),
{
    lemma_count_le_len(xor_seq(a, b));
}

/// Two hypervectors that differ in every position are at the full distance.
pub proof fn lemma_hamming_complement(a: Seq<bool>, b: Seq<bool>)
    requires
        a.len() == b.len(),
        forall|i: int| 0 <= i < a.len() ==> a[i] != b[i],
    ensures
        hamming(a, b) == a.len(),
{
    lemma_count_all_true(xor_seq(a, b));
}

/// Equal-length hypervectors are at distance zero exactly when they are equal.
pub proof fn lemma_hamming_zero_iff_equal(a: Seq<bool>, b: Seq<bool>)
    requires
        a.len() == b.len(),
    ensures
        hamming(a, b) == 0 <==> a == b,
    decreases a.len(),
{
    if a.len() > 0 {
        assert(xor_seq(a, b).drop_last() =~= xor_seq(a.drop_last(), b.drop_last()));
        lemma_hamming_zero_iff_equal(a.drop_last(), b.drop_last());
        if a.drop_last() == b.drop_last() && a.last() == b.last() {
            assert forall|i: int| 0 <= i < a.len() implies a[i] == b[i] by {
                if i < a.len() - 1 {
                    assert(a.drop_last()[i] == b.drop_last()[i]);
                }
            }
            assert(a =~= b);
        }
        if a == b {
            assert(a.drop_last() == b.drop_last());
        }
    } else {
        assert(a =~= b);
    }
}

/// The Hamming distance obeys the triangle inequality.
pub proof fn lemma_hamming_triangle(a: Seq<bool>, b: Seq<bool>, c: Seq<bool>)
    requires
        a.len() == b.len(),
        b.len() == c.len(),
    ensures
        hamming(a, c) <= hamming(a, b) + hamming(b, c),
    decreases a.len(),
{
    if a.len() > 0 {
        assert(xor_seq(a, c).drop_last() =~= xor_seq(a.drop_last(), c.drop_last()));
        assert(xor_seq(a, b).drop_last() =~= xor_seq(a.drop_last(), b.drop_last()));
        assert(xor_seq(b, c).drop_last() =~= xor_seq(b.drop_last(), c.drop_last()));
        lemma_hamming_triangle(a.drop_last(), b.drop_last(), c.drop_last());
    }
}

/// The distance that `dist` computes is a metric on hypervectors of one length,
/// for every length: symmetric, zero exactly between equal hypervectors,
/// subadditive along any third hypervector, and at most the length.
pub proof fn lemma_hamming_metric(a: Seq<bool>, b: Seq<bool>, c: Seq<bool>)
    requires
        a.len() == b.len(),
        b.len() == c.len(),
    ensures
        hamming(a, b) == hamming(b, a),
        hamming(a, a) == 0,
        hamming(a, b) == 0 <==> a == b,
        hamming(a, c) <= hamming(a, b) + hamming(b, c),
        hamming(a, b) <= a.len(),
{
    lemma_hamming_symmetric(a, b);
    lemma_hamming_self(a);
    lemma_hamming_zero_iff_equal(a, b);
    lemma_hamming_triangle(a, b, c);
    lemma_hamming_bounded(a, b);
}

/// Calculates the distance between two binary hypervectors: the number of
/// positions at which they differ. The hypervectors must have the same length.
pub fn dist(a: &Vec<bool>, b: &Vec<bool>) -> (d: u32)
    requires
        a.len() == b.len(),
        a.len() <= u32::MAX,
    ensures
        d == hamming(a@, b@),
{
    let n: usize = a.len();
    let mut count: u32 = 0;
    let mut i: usize = 0;
    let ghost x = xor_seq(a@, b@);
    while i < n
        invariant
            n == a.len(),
            a.len() == b.len(),
            n <= u32::MAX,
            i <= n,
            x == xor_seq(a@, b@),
            count == count_true(x.take(i as int)),
            count <= i,
        decreases n - i,
    {
        proof {
            lemma_count_prefix_step(x, i as int);
        }
        if a[i] != b[i] {
            count = count + 1;
        }
        i = i + 1;
    }
    assert(x.take(n as int) =~= x);
    count
}

/// Element-wise XOR of two hypervectors of the same length.
pub fn xor(a: &Vec<bool>, b: &Vec<bool>) -> (r: Vec<bool>)
    requires
        a.len() == b.len(),
    ensures
        r@ == xor_seq(a@, b@),
{
    let n: usize = a.len();
    let mut r: Vec<bool> = Vec::with_capacity(n);
    let mut i: usize = 0;
    while i < n
        invariant
            n == a.len(),
            a.len() == b.len(),
            i <= n,
            r@ =~= xor_seq(a@, b@).take(i as int),
        decreases n - i,
    {
        r.push(a[i] != b[i]);
        i = i + 1;
    }
    r
}

} // verus!
