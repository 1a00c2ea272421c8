//! Digit-level carry/borrow primitives.
//!
//! Three pure functions on single 64-bit digits, each returning a result
//! digit together with a carry or borrow digit. They are the building
//! blocks that [`crate::uint::Uint`] iterates once per digit.

use vstd::prelude::*;
use vstd::arithmetic::div_mod::lemma_fundamental_div_mod;
use vstd::arithmetic::div_mod::lemma_multiply_divide_lt;
use vstd::arithmetic::div_mod::lemma_mod_division_less_than_divisor;

verus! {

/// Number of bits in one digit.
pub const DIGIT_BITS: usize = 64;

/// One more than the largest digit: the base of the positional system.
pub const DIGIT_BASE: u128 = 0x1_0000_0000_0000_0000;

/// Add with carry: computes `a + b + carry` over one digit.
///
/// The first component is the low 64 bits of the sum; the second is the
/// carry out, `1` exactly when the true sum does not fit in one digit.
pub fn adc(a: u64, b: u64, carry: u64) -> (r: (u64, u64))
    requires
        carry <= 1,
    ensures
        r.0 + r.1 * DIGIT_BASE == a + b + carry,
        r.1 <= 1,
{
    let t: u128 = a as u128 + b as u128 + carry as u128;
    let lo: u64 = (t % DIGIT_BASE) as u64;
    let hi: u64 = (t / DIGIT_BASE) as u64;
    proof {
        lemma_fundamental_div_mod(t as int, DIGIT_BASE as int);
        lemma_mod_division_less_than_divisor(t as int, DIGIT_BASE as int);
        lemma_multiply_divide_lt(t as int, 2, DIGIT_BASE as int);
    }
    (lo, hi)
}

/// Subtract with borrow: computes `a - b - borrow` over one digit.
///
/// The first component is the low 64 bits of the wrapped difference; the
/// second is the borrow out, `1` exactly when `a < b + borrow`.
pub fn sbb(a: u64, b: u64, borrow: u64) -> (r: (u64, u64))
    requires
        borrow <= 1,
    ensures
        r.0 - r.1 * DIGIT_BASE == a - b - borrow,
        r.1 <= 1,
{
    let t: u128 = (DIGIT_BASE + a as u128) - (b as u128 + borrow as u128);
    let lo: u64 = (t % DIGIT_BASE) as u64;
    let hi: u64 = (t / DIGIT_BASE) as u64;
    proof {
        lemma_fundamental_div_mod(t as int, DIGIT_BASE as int);
        lemma_mod_division_less_than_divisor(t as int, DIGIT_BASE as int);
        lemma_multiply_divide_lt(t as int, 2, DIGIT_BASE as int);
    }
    (lo, 1 - hi)
}

/// Widening multiply-accumulate: computes `acc + a * b + carry` over one
/// digit, returning the low 64 bits and the high 64 bits of the 128-bit sum.
pub fn mac(acc: u64, a: u64, b: u64, carry: u64) -> (r: (u64, u64))
    ensures
        r.0 + r.1 * DIGIT_BASE == acc + a * b + carry,
{
    proof {
        assert((a as int) * (b as int) <= (u64::MAX as int) * (u64::MAX as int))
            by (nonlinear_arith)
            requires
                a <= u64::MAX,
                b <= u64::MAX,
        ;
    }
    let t: u128 = acc as u128 + (a as u128) * (b as u128) + carry as u128;
    let lo: u64 = (t % DIGIT_BASE) as u64;
    let hi: u64 = (t / DIGIT_BASE) as u64;
    proof {
        lemma_fundamental_div_mod(t as int, DIGIT_BASE as int);
        lemma_mod_division_less_than_divisor(t as int, DIGIT_BASE as int);
        lemma_multiply_divide_lt(t as int, DIGIT_BASE as int, DIGIT_BASE as int);
    }
    (lo, hi)
}

} // verus!
