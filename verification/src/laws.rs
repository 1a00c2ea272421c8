//! Properties that relate the operations of [`crate::uint::Uint`] to one
//! another, stated over the digit-sequence model that the operations'
//! contracts use.

use vstd::prelude::*;
use vstd::arithmetic::power2::pow2;
use vstd::arithmetic::power2::lemma_pow2_pos;
use vstd::arithmetic::power2::lemma2_to64;
use vstd::arithmetic::div_mod::lemma_small_mod;
use crate::uint::Uint;
use crate::uint::digits_value;
use crate::uint::elem_prod_value;
use crate::uint::spec_zero;
use crate::uint::spec_from_digit;
use crate::uint::lemma_single_digit_value;
use crate::uint::lemma_value_zero_iff;
use crate::uint::lemma_value_injective;
use crate::uint::lemma_uint_len;

verus! {

/// The single-digit constructor agrees with the constant constructors at
/// every width: `from_digit(0)` yields the digit sequence of `zero()`,
/// and `from_digit(1)` the digit sequence of `one()`, so `is_eq` holds
/// of each pair.
pub proof fn lemma_from_digit_identity(n: nat)
    ensures
        spec_from_digit(0, n) =~= spec_zero(n),
        digits_value(spec_from_digit(0, n)) == 0,
        n >= 1 ==> digits_value(spec_from_digit(1, n)) == 1,
{
    assert(spec_from_digit(0, n) =~= spec_zero(n));
    lemma_value_zero_iff(spec_from_digit(0, n));
    if n >= 1 {
        lemma_single_digit_value(spec_from_digit(1, n));
    }
}

/// Adding `b` and then subtracting `b` restores `a`, provided the true
/// sum stays below `2^(64*N)`: within that range the wraparound addition
/// and subtraction cancel exactly.
pub proof fn lemma_add_sub_cancel<const N: usize>(a: Uint<N>, b: Uint<N>)
    requires
        a.value() + b.value() < pow2((64 * N) as nat),
    ensures
        ({
            let m = pow2((64 * N) as nat);
            ((a.value() + b.value()) % m - b.value()) % (m as int) == a.value()
        }),
{
    let m = pow2((64 * N) as nat);
    lemma_pow2_pos((64 * N) as nat);
    lemma_small_mod((a.value() + b.value()) as nat, m);
    lemma_small_mod(a.value(), m);
}

/// For one-digit sequences the index-aligned product is the true product
/// of the two digits: with a single digit there are no cross terms to
/// miss, so `mul_assign` is exact there up to the final wraparound.
pub proof fn lemma_elem_prod_single(a: Seq<u64>, b: Seq<u64>)
    requires
        a.len() == 1,
        b.len() == 1,
    ensures
        elem_prod_value(a, b) == (a[0] as nat) * (b[0] as nat),
{
    lemma2_to64();
    assert(a.last() == a[0]);
    assert(b.last() == b[0]);
    assert(elem_prod_value(a.drop_last(), b.drop_last()) == 0);
    assert((a[0] as nat) * (b[0] as nat) * pow2(0) == (a[0] as nat) * (b[0] as nat))
        by (nonlinear_arith)
        requires
            pow2(0) == 1,
    ;
}

/// Two single-digit values of any width multiply to the product of their
/// lowest digits: every aligned product above index 0 is zero.
pub proof fn lemma_single_digit_prod(x: u64, y: u64, n: nat)
    requires
        n >= 1,
    ensures
        elem_prod_value(spec_from_digit(x, n), spec_from_digit(y, n)) == (x as nat) * (y as nat),
    decreases n,
{
    let a = spec_from_digit(x, n);
    let b = spec_from_digit(y, n);
    if n == 1 {
        lemma_elem_prod_single(a, b);
    } else {
        assert(a.drop_last() =~= spec_from_digit(x, (n - 1) as nat));
        assert(b.drop_last() =~= spec_from_digit(y, (n - 1) as nat));
        lemma_single_digit_prod(x, y, (n - 1) as nat);
        assert(a.last() == 0);
        assert(b.last() == 0);
        assert((a.last() as nat) * (b.last() as nat) * pow2((64 * (n - 1)) as nat) == 0)
            by (nonlinear_arith)
            requires
                a.last() == 0,
        ;
    }
}

/// The relation `is_eq` decides — digit-wise equality — is reflexive,
/// symmetric and transitive, and coincides with equality of the integers
/// the two values stand for.
pub proof fn lemma_eq_equivalence<const N: usize>(a: Uint<N>, b: Uint<N>, c: Uint<N>)
    ensures
        a@ == a@,
        a@ == b@ ==> b@ == a@,
        a@ == b@ && b@ == c@ ==> a@ == c@,
        (a@ == b@) <==> (a.value() == b.value()),
{
    lemma_uint_len(a);
    lemma_uint_len(b);
    if a.value() == b.value() {
        lemma_value_injective(a@, b@);
    }
}

} // verus!
