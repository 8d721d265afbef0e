//! Polynomials over GF(2) packed into sixteen-bit words: bit `i` of a word is
//! the coefficient of `x^i`. The arithmetic itself is done by the `gf256`
//! and `bit_reverse` crates; this module states what those calls return.

use vstd::prelude::*;
use vstd::arithmetic::power2::pow2;
use vstd::std_specs::bits::u16_leading_zeros;
use vstd::std_specs::bits::axiom_u16_leading_zeros;
use bit_reverse::LookupReverse;
use gf256::p16;

verus! {

/// The word whose bit `15 - i` is bit `i` of `x`.
pub open spec fn reverse16(x: u16) -> u16 {
    ((x & 0x0001) << 15) | ((x & 0x0002) << 13) | ((x & 0x0004) << 11) | ((x & 0x0008) << 9)
        | ((x & 0x0010) << 7) | ((x & 0x0020) << 5) | ((x & 0x0040) << 3) | ((x & 0x0080) << 1)
        | ((x & 0x0100) >> 1) | ((x & 0x0200) >> 3) | ((x & 0x0400) >> 5) | ((x & 0x0800) >> 7)
        | ((x & 0x1000) >> 9) | ((x & 0x2000) >> 11) | ((x & 0x4000) >> 13) | ((x & 0x8000) >> 15)
}

/// The number of one bits in `x`.
pub open spec fn popcount16(x: u16) -> nat
    decreases x,
{
    if x == 0 {
        0
    } else {
        (x % 2) as nat + popcount16(x / 2)
    }
}

/// `x < 2^n`, for a width `n` of at most sixteen bits.
pub open spec fn fits_bits(x: u16, n: nat) -> bool {
    n >= 16 || (x as nat) < pow2(n)
}

/// `u16::count_ones` returns the number of one bits of its argument.
pub assume_specification[ u16::count_ones ](i: u16) -> (r: u32)
    ensures
        r == popcount16(i),
;

/// `LookupReverse::swap_bits` on a `u16` reverses the order of its sixteen bits.
#[verifier::external_body]
pub(crate) fn swap_bits16(x: u16) -> (r: u16)
    ensures
        r == reverse16(x),
{
    x.swap_bits()
}

/// `+` on `gf256::p16` adds two polynomials over GF(2): the bitwise exclusive or.
#[verifier::external_body]
pub(crate) fn poly_add(a: u16, b: u16) -> (r: u16)
    ensures
        r == a ^ b,
{
    (p16(a) + p16(b)).0
}

/// `*` on `gf256::p16`, used with a constant polynomial `bit` (zero or one) as
/// the second factor: the product is zero or the first factor.
#[verifier::external_body]
pub(crate) fn poly_mul_bit(a: u16, bit: u16) -> (r: u16)
    requires
        bit <= 1,
    ensures
        r == if bit == 1 { a } else { 0u16 },
{
    (p16(a) * p16(bit)).0
}

/// `<<` on `gf256::p16` multiplies by `x^n`, dropping what leaves the word.
#[verifier::external_body]
pub(crate) fn poly_shl(a: u16, n: u16) -> (r: u16)
    requires
        n < 16,
    ensures
        r == a << n,
{
    (p16(a) << n).0
}

/// `p16::naive_div` where the dividend's degree does not exceed the divisor's:
/// the quotient is one when the two degrees agree and zero otherwise. The
/// outside function divides by repeated subtraction of the shifted divisor
/// while the dividend has no more leading zeros than the divisor, which
/// here happens at most once.
#[verifier::external_body]
pub(crate) fn poly_div(a: u16, b: u16) -> (q: u16)
    requires
        b != 0,
        u16_leading_zeros(a) >= u16_leading_zeros(b),
    ensures
        q == if u16_leading_zeros(a) == u16_leading_zeros(b) { 1u16 } else { 0u16 },
{
    p16(a).naive_div(p16(b)).0
}

/// `p16::naive_rem` where the dividend's degree does not exceed the divisor's:
/// the remainder is the dividend, less the divisor when the two degrees agree.
#[verifier::external_body]
pub(crate) fn poly_rem(a: u16, b: u16) -> (r: u16)
    requires
        b != 0,
        u16_leading_zeros(a) >= u16_leading_zeros(b),
    ensures
        r == if u16_leading_zeros(a) == u16_leading_zeros(b) { a ^ b } else { a },
{
    p16(a).naive_rem(p16(b)).0
}

/// A nonzero word has at least one bit set, and no word has more than sixteen.
pub proof fn lemma_popcount16_bounds(x: u16)
    ensures
        popcount16(x) <= 16,
        x != 0 ==> popcount16(x) >= 1,
        x == 0 ==> popcount16(x) == 0,
{
    vstd::arithmetic::power2::lemma2_to64();
    lemma_popcount16_width(x, 16);
    lemma_popcount16_positive(x);
}

proof fn lemma_popcount16_width(x: u16, n: nat)
    requires
        n <= 16,
        (x as nat) < pow2(n),
    ensures
        popcount16(x) <= n,
    decreases x,
{
    vstd::arithmetic::power2::lemma2_to64();
    if x != 0 {
        assert(n >= 1);
        vstd::arithmetic::power2::lemma_pow2_unfold(n);
        lemma_popcount16_width(x / 2, (n - 1) as nat);
    }
}

proof fn lemma_popcount16_positive(x: u16)
    ensures
        x != 0 ==> popcount16(x) >= 1,
    decreases x,
{
    if x != 0 {
        lemma_popcount16_positive(x / 2);
    }
}

/// A word of exactly `n` significant bits has `16 - n` leading zeros, and a
/// shorter one has more.
pub proof fn lemma_leading_zeros_of_width(x: u16, n: u16)
    requires
        1 <= n <= 16,
        (x as u32) < (1u32 << n),
    ensures
        (x >> ((n - 1) as u16)) & 1 == 1 ==> u16_leading_zeros(x) == 16 - n,
        (x >> ((n - 1) as u16)) & 1 == 0 ==> u16_leading_zeros(x) > 16 - n,
{
    axiom_u16_leading_zeros(x);
    let z: u16 = u16_leading_zeros(x) as u16;
    let hi: u16 = (n - 1) as u16;
    assert(z <= 16);
    if z < 16 {
        let top: u16 = (x >> ((15 - z) as u16)) & 1u16;
        assert(top != 0);
        assert(z >= 16 - n) by (bit_vector)
            requires
                z < 16,
                1 <= n <= 16,
                (x >> ((15 - z) as u16)) & 1u16 != 0,
                (x as u32) < (1u32 << n),
        ;
    }
    let tail: u16 = x >> ((16 - z) as u16);
    assert(tail == 0);
    assert((x >> hi) & 1 == 0 || (x >> hi) & 1 == 1) by (bit_vector);
    if (x >> hi) & 1 == 1 {
        assert(z <= 16 - n) by (bit_vector)
            requires
                z <= 16,
                1 <= n <= 16,
                hi == n - 1,
                (x >> hi) & 1 == 1,
                x >> ((16 - z) as u16) == 0,
        ;
    } else {
        assert(z != 16 - n) by (bit_vector)
            requires
                z <= 16,
                1 <= n <= 16,
                hi == n - 1,
                (x >> hi) & 1 == 0,
                z < 16 ==> (x >> ((15 - z) as u16)) & 1u16 != 0,
        ;
    }
}

} // verus!
