//! Facts about single bits of 64-bit words.
use vstd::prelude::*;
use vstd::std_specs::bits::{axiom_u64_trailing_zeros, u64_trailing_zeros};

verus! {

/// Bit `b` of `w` is set.
pub open spec fn bit(w: u64, b: u64) -> bool {
    (w >> b) & 1 == 1
}

pub proof fn lemma_bit_or_one(w: u64, b: u64)
    requires
        b < 64,
    ensures
        forall|j: u64| j < 64 ==> (#[trigger] bit(w | (1u64 << b), j) <==> (bit(w, j) || j == b)),
{
    assert(forall|j: u64| j < 64 ==> (#[trigger] ((w | (1u64 << b)) >> j) & 1 == 1 <==> ((w >> j) & 1 == 1 || j == b))) by (bit_vector)
        requires
            b < 64,
    ;
}

pub proof fn lemma_bit_and_not_one(w: u64, b: u64)
    requires
        b < 64,
    ensures
        forall|j: u64| j < 64 ==> (#[trigger] bit(w & !(1u64 << b), j) <==> (bit(w, j) && j != b)),
{
    assert(forall|j: u64| j < 64 ==> (#[trigger] ((w & !(1u64 << b)) >> j) & 1 == 1 <==> ((w >> j) & 1 == 1 && j != b))) by (bit_vector)
        requires
            b < 64,
    ;
}

pub proof fn lemma_bit_test(w: u64, b: u64)
    requires
        b < 64,
    ensures
        (w & (1u64 << b) != 0) == bit(w, b),
        (w & (1u64 << b) == 0) == !bit(w, b),
{
    assert((w & (1u64 << b) != 0) == ((w >> b) & 1 == 1)) by (bit_vector)
        requires
            b < 64,
    ;
}

pub proof fn lemma_bit_zero(w: u64)
    ensures
        (w == 0) == (forall|j: u64| j < 64 ==> !#[trigger] bit(w, j)),
{
    assert(forall|j: u64| j < 64 ==> !#[trigger] bit(0, j)) by {
        assert(forall|j: u64| j < 64 ==> (#[trigger] (0u64 >> j) & 1) != 1) by (bit_vector);
    }
    if w != 0 {
        axiom_u64_trailing_zeros(w);
        let t = u64_trailing_zeros(w) as u64;
        assert(bit(w, t));
    }
}

pub proof fn lemma_bit_high_mask(w: u64, s: u64)
    requires
        s < 64,
    ensures
        forall|j: u64| j < 64 ==> (#[trigger] bit(w & (0xffff_ffff_ffff_ffffu64 << s), j) <==> (bit(w, j) && j >= s)),
{
    assert(forall|j: u64| j < 64 ==> (#[trigger] ((w & (0xffff_ffff_ffff_ffffu64 << s)) >> j) & 1 == 1 <==> ((w >> j) & 1 == 1 && j >= s))) by (bit_vector)
        requires
            s < 64,
    ;
}

pub proof fn lemma_bit_low_mask(w: u64, s: u64)
    requires
        s < 64,
    ensures
        forall|j: u64| j < 64 ==> (#[trigger] bit(w & (((1u64 << s) - 1) as u64), j) <==> (bit(w, j) && j < s)),
        (1u64 << s) >= 1,
{
    assert(forall|j: u64| j < 64 ==> (#[trigger] ((w & (((1u64 << s) - 1) as u64)) >> j) & 1 == 1 <==> ((w >> j) & 1 == 1 && j < s))) by (bit_vector)
        requires
            s < 64,
    ;
    assert((1u64 << s) >= 1) by (bit_vector)
        requires
            s < 64,
    ;
}

/// The lowest set bit of a nonzero word.
pub proof fn lemma_trailing_zeros(w: u64)
    requires
        w != 0,
    ensures
        u64_trailing_zeros(w) < 64,
        bit(w, u64_trailing_zeros(w) as u64),
        forall|j: u64| j < u64_trailing_zeros(w) ==> !#[trigger] bit(w, j),
{
    axiom_u64_trailing_zeros(w);
    let t = u64_trailing_zeros(w) as u64;
    assert forall|j: u64| j < u64_trailing_zeros(w) implies !#[trigger] bit(w, j) by {
        assert((w >> j) & 1u64 == 0u64);
    }
}

} // verus!
