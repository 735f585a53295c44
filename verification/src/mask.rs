//! Occupancy masks: a set of digits held in the low nine bits of a `u16`.

use vstd::prelude::*;

verus! {

/// The bit that stands for the digit `d`: bit `d - 1`.
pub open spec fn digit_bit(d: int) -> u16 {
    1u16 << ((d - 1) as u16)
}

/// Whether the mask `m` holds the digit `d`.
pub open spec fn mask_has(m: u16, d: int) -> bool {
    m & digit_bit(d) != 0
}

/// Whether the mask `m` uses none but the nine bits that stand for digits.
pub open spec fn is_digit_mask(m: u16) -> bool {
    m < 512
}

/// The empty mask holds no digit.
pub proof fn lemma_mask_empty(d: int)
    requires
        1 <= d <= 9,
    ensures
        !mask_has(0, d),
        is_digit_mask(0),
{
    let s = (d - 1) as u16;
    assert(0u16 & (1u16 << s) == 0) by (bit_vector);
}

/// Setting the bit of `v` adds `v` to the mask and changes nothing else.
pub proof fn lemma_mask_insert(m: u16, v: int, d: int)
    requires
        1 <= v <= 9,
        1 <= d <= 9,
    ensures
        mask_has(m | digit_bit(v), d) <==> mask_has(m, d) || d == v,
        is_digit_mask(m) ==> is_digit_mask(m | digit_bit(v)),
{
    let sv = (v - 1) as u16;
    let sd = (d - 1) as u16;
    assert(((m | (1u16 << sv)) & (1u16 << sd) != 0) <==> ((m & (1u16 << sd)) != 0 || sd == sv))
        by (bit_vector)
        requires
            sv < 9,
            sd < 9,
    ;
    assert(m < 512 ==> (m | (1u16 << sv)) < 512) by (bit_vector)
        requires
            sv < 9,
    ;
}

/// Testing a mask against the bit of a digit, with the bit on either side.
pub proof fn lemma_mask_test(m: u16, d: int)
    ensures
        (digit_bit(d) & m == 0) <==> !mask_has(m, d),
{
    let bit = digit_bit(d);
    assert((bit & m == 0) <==> !(m & bit != 0)) by (bit_vector);
}

/// The union of three masks holds a digit exactly when one of them does.
pub proof fn lemma_mask_union(a: u16, b: u16, c: u16, d: int)
    requires
        1 <= d <= 9,
    ensures
        mask_has(a | b | c, d) <==> mask_has(a, d) || mask_has(b, d) || mask_has(c, d),
{
    let s = (d - 1) as u16;
    assert((((a | b | c) & (1u16 << s)) != 0) <==> ((a & (1u16 << s)) != 0 || (b & (1u16 << s))
        != 0 || (c & (1u16 << s)) != 0)) by (bit_vector);
}

} // verus!
