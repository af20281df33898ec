//! The 64-bit mask algebra: named helper operations and the facts about
//! single-bit values that the codec and the registry proofs rest on.

use vstd::prelude::*;

verus! {

/// `v` has exactly one bit set: it is a power of two within the 64-bit width.
pub open spec fn single_bit(v: u64) -> bool {
    exists|k: u64| k < 64 && v == (1u64 << k)
}

/// Every bit set in `part` is also set in `whole`.
pub open spec fn mask_covers(whole: u64, part: u64) -> bool {
    whole & part == part
}

/// Union of two masks.
pub fn mask_union(a: u64, b: u64) -> (r: u64)
    ensures
        r == (a | b),
{
    a | b
}

/// Subset test: does `whole` grant everything in `part`?
pub fn mask_contains(whole: u64, part: u64) -> (r: bool)
    ensures
        r == mask_covers(whole, part),
{
    whole & part == part
}

/// The bits of `a` that `b` lacks.
pub fn mask_difference(a: u64, b: u64) -> (r: u64)
    ensures
        r == (a & !b),
{
    a & !b
}

/// A single-bit value is never zero.
pub proof fn lemma_single_bit_nonzero(v: u64)
    requires
        single_bit(v),
    ensures
        v != 0,
{
    let k = choose|k: u64| k < 64 && v == (1u64 << k);
    assert((1u64 << k) != 0) by (bit_vector)
        requires
            k < 64,
    ;
}

/// Shifting one left is strictly monotone over the 64-bit width.
pub proof fn lemma_shift_strictly_monotone(j: u64, k: u64)
    requires
        j < k < 64,
    ensures
        (1u64 << j) < (1u64 << k),
{
    assert((1u64 << j) < (1u64 << k)) by (bit_vector)
        requires
            j < k < 64,
    ;
}

/// A single-bit value below `1 << k` is `1 << m` for some `m < k`.
pub proof fn lemma_single_bit_below(v: u64, k: u64)
    requires
        single_bit(v),
        k < 64,
        v < (1u64 << k),
    ensures
        exists|m: u64| m < k && v == (1u64 << m),
{
    let m = choose|m: u64| m < 64 && v == (1u64 << m);
    if m > k {
        lemma_shift_strictly_monotone(k, m);
    }
    assert(m < k && v == (1u64 << m));
}

/// Two distinct single-bit values share no bit, so neither covers the other.
pub proof fn lemma_distinct_single_bits_disjoint(p: u64, q: u64)
    requires
        single_bit(p),
        single_bit(q),
        p != q,
    ensures
        p & q == 0,
        !mask_covers(q, p),
{
    let j = choose|j: u64| j < 64 && p == (1u64 << j);
    let k = choose|k: u64| k < 64 && q == (1u64 << k);
    assert((1u64 << j) & (1u64 << k) == 0 && (1u64 << k) & (1u64 << j) != (1u64 << j))
        by (bit_vector)
        requires
            j < 64 && k < 64 && (1u64 << j) != (1u64 << k),
    ;
}

/// A mask covers a single-bit union member iff it covers one of the parts.
pub proof fn lemma_union_covers_single_bit(a: u64, b: u64, p: u64)
    requires
        single_bit(p),
    ensures
        mask_covers(a | b, p) <==> (mask_covers(a, p) || mask_covers(b, p)),
{
    let k = choose|k: u64| k < 64 && p == (1u64 << k);
    assert(((a | b) & (1u64 << k) == (1u64 << k)) <==> ((a & (1u64 << k) == (1u64 << k)) || (b & (
    1u64 << k) == (1u64 << k)))) by (bit_vector)
        requires
            k < 64,
    ;
}

/// A union is covered iff both parts are covered.
pub proof fn lemma_covers_union_split(u: u64, a: u64, b: u64)
    ensures
        mask_covers(u, a | b) <==> (mask_covers(u, a) && mask_covers(u, b)),
{
    assert((u & (a | b) == (a | b)) <==> ((u & a == a) && (u & b == b))) by (bit_vector);
}

/// Every mask covers itself and the empty mask; the empty mask covers nothing
/// with a bit set.
pub proof fn lemma_covers_basics(u: u64, p: u64)
    ensures
        mask_covers(u, u),
        mask_covers(u, 0),
        p != 0 ==> !mask_covers(0, p),
{
    assert(u & u == u && u & 0 == 0 && (p != 0 ==> 0u64 & p != p)) by (bit_vector);
}

/// A single bit is in the difference `a & !b` iff it is in `a` and not in `b`.
pub proof fn lemma_difference_covers_single_bit(a: u64, b: u64, p: u64)
    requires
        single_bit(p),
    ensures
        mask_covers(a & !b, p) <==> (mask_covers(a, p) && !mask_covers(b, p)),
{
    let k = choose|k: u64| k < 64 && p == (1u64 << k);
    assert(((a & !b) & (1u64 << k) == (1u64 << k)) <==> ((a & (1u64 << k) == (1u64 << k)) && !(b & (
    1u64 << k) == (1u64 << k)))) by (bit_vector)
        requires
            k < 64,
    ;
}

} // verus!
