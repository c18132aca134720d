//! Helpers shared by the rest of the crate.

use vstd::prelude::*;

verus! {

/// The least multiple of `alignment` that is not below `value`.
#[verifier::opaque]
pub open spec fn align_up(value: int, alignment: int) -> int
    recommends
        alignment > 0,
{
    ((value + alignment - 1) / alignment) * alignment
}

/// `align_up` yields a multiple of the alignment, and the nearest one from above.
pub proof fn lemma_align_up(value: int, alignment: int)
    requires
        value >= 0,
        alignment > 0,
    ensures
        align_up(value, alignment) % alignment == 0,
        value <= align_up(value, alignment) < value + alignment,
        value % alignment == 0 ==> align_up(value, alignment) == value,
{
    reveal(align_up);
    let s = value + alignment - 1;
    let q = s / alignment;
    vstd::arithmetic::div_mod::lemma_fundamental_div_mod(s, alignment);
    vstd::arithmetic::div_mod::lemma_mod_multiples_basic(q, alignment);
    assert(alignment * q == q * alignment) by (nonlinear_arith);
    assert(0 <= s % alignment < alignment) by (nonlinear_arith)
        requires
            alignment > 0,
    ;
    if value % alignment == 0 {
        let k = value / alignment;
        vstd::arithmetic::div_mod::lemma_fundamental_div_mod(value, alignment);
        assert(alignment * k == k * alignment) by (nonlinear_arith);
        vstd::arithmetic::div_mod::lemma_fundamental_div_mod_converse(
            s,
            alignment,
            k,
            alignment - 1,
        );
    }
}

/// A multiple of `coarse` is a multiple of every divisor `fine` of `coarse`.
pub proof fn lemma_multiple_of_multiple(value: int, coarse: int, fine: int)
    requires
        fine > 0,
        coarse > 0,
        coarse % fine == 0,
        value % coarse == 0,
    ensures
        value % fine == 0,
{
    let a = value / coarse;
    let b = coarse / fine;
    vstd::arithmetic::div_mod::lemma_fundamental_div_mod(value, coarse);
    vstd::arithmetic::div_mod::lemma_fundamental_div_mod(coarse, fine);
    assert(value == (a * b) * fine) by (nonlinear_arith)
        requires
            value == coarse * a,
            coarse == fine * b,
    ;
    vstd::arithmetic::div_mod::lemma_mod_multiples_basic(a * b, fine);
}

/// Rounds `to_be_aligned` up to the next multiple of `aligment`.
///
/// It is used to make region sizes a multiple of the page size and block
/// sizes a multiple of the machine word.
pub fn align(to_be_aligned: usize, aligment: usize) -> (aligned: usize)
    requires
        aligment > 0,
        to_be_aligned + aligment <= usize::MAX,
    ensures
        aligned == align_up(to_be_aligned as int, aligment as int),
        aligned % aligment == 0,
        to_be_aligned <= aligned < to_be_aligned + aligment,
{
    proof {
        reveal(align_up);
        lemma_align_up(to_be_aligned as int, aligment as int);
    }
    (to_be_aligned + aligment - 1) / aligment * aligment
}

} // verus!
