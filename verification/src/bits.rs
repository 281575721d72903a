//! Bit-level view of a 64-bit word and the lemmas that connect the
//! bitwise operators to it.

use vstd::prelude::*;

verus! {

/// True when bit `i` (counting from the low end) of `w` is set.
pub open spec fn bit64(w: u64, i: u64) -> bool {
    (w >> i) & 1u64 == 1u64
}

pub proof fn lemma_bit_or(a: u64, b: u64)
    by (bit_vector)
    ensures
        forall|i: u64| i < 64 ==> #[trigger] bit64(a | b, i) == (bit64(a, i) || bit64(b, i)),
{
}

pub proof fn lemma_bit_and(a: u64, b: u64)
    by (bit_vector)
    ensures
        forall|i: u64| i < 64 ==> #[trigger] bit64(a & b, i) == (bit64(a, i) && bit64(b, i)),
{
}

pub proof fn lemma_bit_xor(a: u64, b: u64)
    by (bit_vector)
    ensures
        forall|i: u64| i < 64 ==> #[trigger] bit64(a ^ b, i) == (bit64(a, i) != bit64(b, i)),
{
}

pub proof fn lemma_bit_not(a: u64)
    by (bit_vector)
    ensures
        forall|i: u64| i < 64 ==> #[trigger] bit64(!a, i) == !bit64(a, i),
{
}

pub proof fn lemma_bit_zero()
    by (bit_vector)
    ensures
        forall|i: u64| i < 64 ==> !#[trigger] bit64(0u64, i),
{
}

/// A word shifted left by `d` holds bit `i - d` of the original word at
/// position `i`; positions below `d` are cleared.
pub proof fn lemma_bit_shl(a: u64, d: u64, i: u64)
    requires
        d < 64,
        i < 64,
    ensures
        bit64(a << d, i) == (i >= d && bit64(a, (i - d) as u64)),
{
    if i >= d {
        let j: u64 = (i - d) as u64;
        assert(bit64(a << d, i) == bit64(a, j)) by (bit_vector)
            requires
                d < 64,
                i < 64,
                i == j + d,
        ;
    } else {
        assert(!bit64(a << d, i)) by (bit_vector)
            requires
                i < d,
                d < 64,
        ;
    }
}

/// A word shifted right by `d` holds bit `i + d` of the original word at
/// position `i`; bits pushed past the top are gone.
pub proof fn lemma_bit_shr(a: u64, d: u64, i: u64)
    requires
        d < 64,
        i < 64,
    ensures
        bit64(a >> d, i) == (i + d < 64 && bit64(a, (i + d) as u64)),
{
    if i + d < 64 {
        let j: u64 = (i + d) as u64;
        assert(bit64(a >> d, i) == bit64(a, j)) by (bit_vector)
            requires
                d < 64,
                i < 64,
                j == i + d,
                j < 64,
        ;
    } else {
        assert(!bit64(a >> d, i)) by (bit_vector)
            requires
                d < 64,
                i < 64,
                i + d >= 64,
        ;
    }
}

/// `1 << v` has exactly the bit at position `v` set.
pub proof fn lemma_bit_single(v: u64)
    requires
        v < 64,
    ensures
        forall|i: u64| i < 64 ==> #[trigger] bit64(1u64 << v, i) == (i == v),
{
    assert(forall|i: u64| i < 64 ==> #[trigger] bit64(1u64 << v, i) == (i == v)) by (bit_vector)
        requires
            v < 64,
    ;
}

/// If some bit at position `k` or above is set once the word is shifted
/// down by `k`, a set bit of the word itself lies at or above `k`.
proof fn lemma_nonzero_from(a: u64, k: u64)
    requires
        k < 64,
        (a >> k) != 0,
    ensures
        exists|i: u64| k <= i < 64 && bit64(a, i),
    decreases 64 - k,
{
    if bit64(a, k) {
        assert(k <= k < 64 && bit64(a, k));
    } else {
        assert(k < 63) by (bit_vector)
            requires
                k < 64,
                (a >> k) != 0,
                !((a >> k) & 1u64 == 1u64),
        ;
        let k1: u64 = (k + 1) as u64;
        assert((a >> k1) != 0) by (bit_vector)
            requires
                k < 63,
                k1 == k + 1,
                (a >> k) != 0,
                !((a >> k) & 1u64 == 1u64),
        ;
        lemma_nonzero_from(a, k1);
    }
}

/// A non-zero word has a set bit.
pub proof fn lemma_bit_nonzero(a: u64)
    requires
        a != 0,
    ensures
        exists|i: u64| i < 64 && bit64(a, i),
{
    assert(a >> 0u64 == a) by (bit_vector);
    lemma_nonzero_from(a, 0);
}

/// Two words that agree on every bit position are the same word.
pub proof fn lemma_bit_ext(a: u64, b: u64)
    requires
        forall|i: u64| i < 64 ==> bit64(a, i) == bit64(b, i),
    ensures
        a == b,
{
    if a != b {
        assert(a ^ b != 0) by (bit_vector)
            requires
                a != b,
        ;
        lemma_bit_nonzero(a ^ b);
        let i = choose|i: u64| i < 64 && bit64(a ^ b, i);
        lemma_bit_xor(a, b);
        assert(bit64(a, i) != bit64(b, i));
        assert(false);
    }
}

} // verus!
