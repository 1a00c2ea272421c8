//! The fixed-width integer type.
//!
//! `Uint<N>` is an ordered sequence of exactly `N` digits, index 0 least
//! significant, standing for the integer `sum digit[i] * 2^(64*i)` taken
//! modulo `2^(64*N)`. The compound operations ripple the digit primitives
//! of [`crate::digit`] across the digits and discard the final carry or
//! borrow, so overflow and underflow wrap silently.

use vstd::prelude::*;
use vstd::arithmetic::power2::pow2;
use vstd::arithmetic::power2::lemma_pow2_adds;
use vstd::arithmetic::power2::lemma_pow2_pos;
use vstd::arithmetic::power2::lemma2_to64;
use vstd::arithmetic::mul::lemma_mul_inequality;
use vstd::arithmetic::mul::lemma_mul_strictly_positive;
use vstd::arithmetic::div_mod::lemma_fundamental_div_mod_converse;
use vstd::arithmetic::div_mod::lemma_mod_multiples_vanish;
use vstd::arithmetic::div_mod::lemma_fundamental_div_mod_converse_mod;
use crate::digit::adc;
use crate::digit::sbb;
use crate::digit::mac;
use crate::hex::hex_render;
use crate::hex::push_char;
use crate::hex::push_hex_pad2;

verus! {

/// One digit: an unsigned 64-bit machine word.
pub type Digit = u64;

/// A 256-bit unsigned integer: four 64-bit digits.
pub type Uint256 = Uint<4>;

/// The integer a digit sequence stands for: `sum s[i] * 2^(64*i)`.
pub open spec fn digits_value(s: Seq<u64>) -> nat
    decreases s.len(),
{
    if s.len() == 0 {
        0
    } else {
        digits_value(s.drop_last()) + (s.last() as nat) * pow2((64 * (s.len() - 1)) as nat)
    }
}

/// The digit sequence of the all-zero value of `n` digits.
pub open spec fn spec_zero(n: nat) -> Seq<u64> {
    Seq::new(n, |i: int| 0u64)
}

/// The digit sequence with `d` at index 0 and zero elsewhere.
pub open spec fn spec_from_digit(d: u64, n: nat) -> Seq<u64> {
    Seq::new(n, |i: int| if i == 0 { d } else { 0u64 })
}

/// A digit sequence stands for zero exactly when every digit is zero.
pub proof fn lemma_value_zero_iff(s: Seq<u64>)
    ensures
        digits_value(s) == 0 <==> (forall|i: int| 0 <= i < s.len() ==> s[i] == 0),
    decreases s.len(),
{
    if s.len() > 0 {
        let d = s.drop_last();
        let p = pow2((64 * (s.len() - 1)) as nat);
        lemma_value_zero_iff(d);
        lemma_pow2_pos((64 * (s.len() - 1)) as nat);
        assert(forall|i: int| 0 <= i < d.len() ==> d[i] == s[i]);
        if digits_value(s) == 0 {
            assert(digits_value(d) == 0);
            assert((s.last() as nat) * p == 0);
            assert(s.last() == 0) by {
                if s.last() != 0 {
                    lemma_mul_strictly_positive(s.last() as int, p as int);
                }
            }
            assert forall|i: int| 0 <= i < s.len() implies s[i] == 0 by {
                if i < s.len() - 1 {
                    assert(s[i] == d[i]);
                } else {
                    assert(s[i] == s.last());
                }
            }
        } else {
            if forall|i: int| 0 <= i < s.len() ==> s[i] == 0 {
                assert forall|i: int| 0 <= i < d.len() implies d[i] == 0 by {
                    assert(s[i] == 0);
                }
                assert(digits_value(d) == 0);
                assert(s.last() == s[s.len() - 1]);
                assert(s.last() == 0);
                assert(digits_value(s) == digits_value(d) + (s.last() as nat) * p);
                assert((s.last() as nat) * p == 0) by (nonlinear_arith)
                    requires
                        s.last() == 0,
                ;
                assert(digits_value(s) == 0);
            }
        }
    }
}

/// A digit sequence stands for an integer below `2^(64*len)`.
pub proof fn lemma_value_bound(s: Seq<u64>)
    ensures
        digits_value(s) < pow2((64 * s.len()) as nat),
    decreases s.len(),
{
    if s.len() == 0 {
        lemma_pow2_pos(0);
    } else {
        let d = s.drop_last();
        let k = (64 * (s.len() - 1)) as nat;
        lemma_value_bound(d);
        lemma_pow2_adds(k, 64);
        lemma2_to64();
        lemma_mul_inequality(s.last() as int, 0xffff_ffff_ffff_ffff, pow2(k) as int);
        assert(digits_value(s) <= (pow2(k) - 1) + 0xffff_ffff_ffff_ffff * pow2(k));
        assert((pow2(k) - 1) + 0xffff_ffff_ffff_ffff * pow2(k) < pow2(k) * pow2(64));
    }
}

/// A digit sequence whose digits above index 0 are all zero stands for
/// its lowest digit.
pub proof fn lemma_single_digit_value(s: Seq<u64>)
    requires
        s.len() >= 1,
        forall|i: int| 1 <= i < s.len() ==> s[i] == 0,
    ensures
        digits_value(s) == s[0],
    decreases s.len(),
{
    lemma2_to64();
    if s.len() == 1 {
        assert(digits_value(s.drop_last()) == 0);
        assert(s.last() == s[0]);
        assert(digits_value(s) == (s[0] as nat) * pow2(0));
    } else {
        let d = s.drop_last();
        assert(forall|i: int| 1 <= i < d.len() ==> d[i] == s[i]);
        lemma_single_digit_value(d);
        assert(s.last() == s[s.len() - 1]);
        assert(s.last() == 0);
        assert(digits_value(s) == digits_value(d));
    }
}

/// Two digit sequences of one length stand for the same integer only if
/// they are the same sequence: the representation has no redundancy.
pub proof fn lemma_value_injective(a: Seq<u64>, b: Seq<u64>)
    requires
        a.len() == b.len(),
        digits_value(a) == digits_value(b),
    ensures
        a =~= b,
    decreases a.len(),
{
    if a.len() > 0 {
        let k = (64 * (a.len() - 1)) as nat;
        lemma_value_bound(a.drop_last());
        lemma_value_bound(b.drop_last());
        lemma_pow2_pos(k);
        lemma_fundamental_div_mod_converse(
            digits_value(a) as int,
            pow2(k) as int,
            a.last() as int,
            digits_value(a.drop_last()) as int,
        );
        lemma_fundamental_div_mod_converse(
            digits_value(b) as int,
            pow2(k) as int,
            b.last() as int,
            digits_value(b.drop_last()) as int,
        );
        lemma_value_injective(a.drop_last(), b.drop_last());
        assert forall|i: int| 0 <= i < a.len() implies a[i] == b[i] by {
            if i < a.len() - 1 {
                assert(a[i] == a.drop_last()[i]);
                assert(b[i] == b.drop_last()[i]);
            } else {
                assert(a[i] == a.last());
                assert(b[i] == b.last());
            }
        }
    }
}

/// The parity of a digit sequence's integer is the parity of digit 0:
/// every higher digit contributes a multiple of `2^64`.
pub proof fn lemma_value_parity(s: Seq<u64>)
    requires
        s.len() >= 1,
    ensures
        digits_value(s) % 2 == (s[0] as nat) % 2,
    decreases s.len(),
{
    lemma2_to64();
    if s.len() == 1 {
        assert(digits_value(s.drop_last()) == 0);
        assert(s.last() == s[0]);
        assert(digits_value(s) == (s[0] as nat) * pow2(0));
    } else {
        let d = s.drop_last();
        let k = (64 * (s.len() - 1)) as nat;
        lemma_value_parity(d);
        assert(d[0] == s[0]);
        lemma_pow2_adds(1, (k - 1) as nat);
        let p1 = pow2((k - 1) as nat) as int;
        assert((s.last() as int) * (2 * p1) == 2 * ((s.last() as int) * p1)) by (nonlinear_arith);
        lemma_mod_multiples_vanish((s.last() as int) * p1, digits_value(d) as int, 2);
    }
}

/// Extending a digit prefix by one digit adds that digit's weighted value.
pub proof fn lemma_prefix_extend(s: Seq<u64>, i: int)
    requires
        0 <= i < s.len(),
    ensures
        digits_value(s.subrange(0, i + 1)) == digits_value(s.subrange(0, i)) + (s[i] as nat)
            * pow2((64 * i) as nat),
{
    let t = s.subrange(0, i + 1);
    assert(t.drop_last() =~= s.subrange(0, i));
    assert(t.last() == s[i]);
}

/// The integer the index-aligned digit products of two equal-length digit
/// sequences stand for: `sum a[i] * b[i] * 2^(64*i)`.
///
/// This is the quantity `mul_assign` computes, not the full cross-digit
/// schoolbook product; the two agree only where no cross terms arise, as
/// for one-digit sequences.
pub open spec fn elem_prod_value(a: Seq<u64>, b: Seq<u64>) -> nat
    recommends
        a.len() == b.len(),
    decreases a.len(),
{
    if a.len() == 0 || b.len() == 0 {
        0
    } else {
        elem_prod_value(a.drop_last(), b.drop_last()) + (a.last() as nat) * (b.last() as nat)
            * pow2((64 * (a.len() - 1)) as nat)
    }
}

/// Extending both prefixes by one digit adds that index's weighted product.
pub proof fn lemma_elem_prod_prefix_extend(a: Seq<u64>, b: Seq<u64>, i: int)
    requires
        0 <= i < a.len(),
        a.len() == b.len(),
    ensures
        elem_prod_value(a.subrange(0, i + 1), b.subrange(0, i + 1)) == elem_prod_value(
            a.subrange(0, i),
            b.subrange(0, i),
        ) + (a[i] as nat) * (b[i] as nat) * pow2((64 * i) as nat),
{
    let ta = a.subrange(0, i + 1);
    let tb = b.subrange(0, i + 1);
    assert(ta.drop_last() =~= a.subrange(0, i));
    assert(tb.drop_last() =~= b.subrange(0, i));
    assert(ta.last() == a[i]);
    assert(tb.last() == b[i]);
}

/// A fixed-width unsigned integer of `N` 64-bit digits, least significant
/// digit first, with silent wraparound modulo `2^(64*N)`.
#[derive(Clone, Copy, Debug)]
pub struct Uint<const N: usize> {
    data: [u64; N],
}

impl<const N: usize> View for Uint<N> {
    type V = Seq<u64>;

    closed spec fn view(&self) -> Seq<u64> {
        self.data@
    }
}

/// Every `Uint<N>` has exactly `N` digits.
pub proof fn lemma_uint_len<const N: usize>(u: Uint<N>)
    ensures
        u@.len() == N,
{
}

impl<const N: usize> Uint<N> {
    /// The integer this value stands for.
    pub open spec fn value(&self) -> nat {
        digits_value(self@)
    }

    /// The all-digits-zero value.
    pub fn zero() -> (r: Self)
        ensures
            r@ =~= spec_zero(N as nat),
            r.value() == 0,
    {
        let r = Uint { data: [0u64; N] };
        proof {
            assert(r@ =~= spec_zero(N as nat));
            lemma_value_zero_iff(r@);
        }
        r
    }

    /// Returns `true` exactly when this value stands for zero, that is,
    /// when every digit is zero.
    #[verifier::loop_isolation(false)]
    pub fn is_zero(&self) -> (r: bool)
        ensures
            r == (self.value() == 0),
    {
        proof {
            lemma_value_zero_iff(self@);
        }
        let mut i: usize = 0;
        while i < N
            invariant
                i <= N,
                forall|j: int| 0 <= j < i ==> self@[j] == 0,
            decreases N - i,
        {
            if self.data[i] != 0 {
                return false;
            }
            i += 1;
        }
        true
    }

    /// The value 1: digit 0 is 1, the rest are zero.
    pub fn one() -> (r: Self)
        requires
            N >= 1,
        ensures
            r@ =~= spec_from_digit(1, N as nat),
            r.value() == 1,
    {
        Self::from_digit(1)
    }

    /// The value of a single digit: digit 0 is `digit`, the rest are zero.
    pub fn from_digit(digit: u64) -> (r: Self)
        requires
            N >= 1,
        ensures
            r@ =~= spec_from_digit(digit, N as nat),
            r.value() == digit,
    {
        let mut data: [u64; N] = [0u64; N];
        data[0] = digit;
        let r = Uint { data };
        proof {
            assert(r@ =~= spec_from_digit(digit, N as nat));
            lemma_single_digit_value(r@);
        }
        r
    }

    /// Returns `true` exactly when all `N` digits pairwise match, which by
    /// the uniqueness of the representation is exactly when the two values
    /// stand for the same integer.
    #[verifier::loop_isolation(false)]
    pub fn is_eq(&self, other: &Self) -> (r: bool)
        ensures
            r == (self@ =~= other@),
            r == (self.value() == other.value()),
    {
        proof {
            if self.value() == other.value() {
                lemma_value_injective(self@, other@);
            }
        }
        let mut i: usize = 0;
        while i < N
            invariant
                i <= N,
                forall|j: int| 0 <= j < i ==> self@[j] == other@[j],
            decreases N - i,
        {
            if self.data[i] != other.data[i] {
                return false;
            }
            i += 1;
        }
        proof {
            assert(self@ =~= other@);
        }
        true
    }

    /// Returns `true` exactly when this value stands for an even integer,
    /// which depends on bit 0 of digit 0 alone.
    pub fn is_even(&self) -> (r: bool)
        requires
            N >= 1,
        ensures
            r == (self.value() % 2 == 0),
            r == (self@[0] & 1 == 0),
    {
        let r = !self.is_odd();
        proof {
            assert(self.value() % 2 < 2);
            let d = self@[0];
            assert(d & 1 == 0 || d & 1 == 1) by (bit_vector);
        }
        r
    }

    /// Returns `true` exactly when this value stands for an odd integer,
    /// which depends on bit 0 of digit 0 alone.
    pub fn is_odd(&self) -> (r: bool)
        requires
            N >= 1,
        ensures
            r == (self.value() % 2 == 1),
            r == (self@[0] & 1 == 1),
    {
        proof {
            lemma_value_parity(self@);
            let d = self@[0];
            assert(d & 1 == d % 2) by (bit_vector);
        }
        self.data[0] & 1 == 1
    }

    /// Ripple-carry addition in place: adds `other` to this value, digit by
    /// digit from the least significant, and discards the carry out of the
    /// most significant digit, so the sum wraps modulo `2^(64*N)`.
    #[verifier::loop_isolation(false)]
    pub fn add_assign(&mut self, other: &Self)
        ensures
            final(self).value() == (old(self).value() + other.value()) % pow2((64 * N) as nat),
    {
        let ghost a0: Seq<u64> = self@;
        let mut carry: u64 = 0;
        let mut i: usize = 0;
        while i < N
            invariant
                i <= N,
                carry <= 1,
                forall|j: int| i <= j < N ==> self@[j] == a0[j],
                digits_value(self@.subrange(0, i as int)) + (carry as nat) * pow2(
                    (64 * i) as nat,
                ) == digits_value(a0.subrange(0, i as int)) + digits_value(
                    other@.subrange(0, i as int),
                ),
            decreases N - i,
        {
            let ghost prev = self@;
            let ghost ci = carry as int;
            let (res, c) = adc(self.data[i], other.data[i], carry);
            self.data[i] = res;
            carry = c;
            proof {
                let p = pow2((64 * i) as nat) as int;
                let b64 = pow2(64) as int;
                lemma2_to64();
                lemma_pow2_adds((64 * i) as nat, 64);
                assert(self@.subrange(0, i as int) =~= prev.subrange(0, i as int));
                lemma_prefix_extend(self@, i as int);
                lemma_prefix_extend(a0, i as int);
                lemma_prefix_extend(other@, i as int);
                let ai = prev[i as int] as int;
                let bi = other@[i as int] as int;
                assert(ai == a0[i as int]);
                assert((res as int) * p + (c as int) * (b64 * p) - ci * p == ai * p + bi * p)
                    by (nonlinear_arith)
                    requires
                        (res as int) + (c as int) * b64 == ai + bi + ci,
                ;
            }
            i += 1;
        }
        proof {
            assert(self@.subrange(0, N as int) =~= self@);
            assert(a0.subrange(0, N as int) =~= a0);
            assert(other@.subrange(0, N as int) =~= other@);
            lemma_value_bound(self@);
            lemma_pow2_pos((64 * N) as nat);
            lemma_fundamental_div_mod_converse_mod(
                (digits_value(a0) + digits_value(other@)) as int,
                pow2((64 * N) as nat) as int,
                carry as int,
                digits_value(self@) as int,
            );
        }
    }

    /// Ripple-borrow subtraction in place: subtracts `other` from this
    /// value, digit by digit from the least significant, and discards the
    /// borrow out of the most significant digit, so underflow wraps
    /// modulo `2^(64*N)`.
    #[verifier::loop_isolation(false)]
    pub fn sub_assign(&mut self, other: &Self)
        ensures
            final(self).value() == (old(self).value() - other.value()) % (pow2(
                (64 * N) as nat,
            ) as int),
    {
        let ghost a0: Seq<u64> = self@;
        let mut borrow: u64 = 0;
        let mut i: usize = 0;
        while i < N
            invariant
                i <= N,
                borrow <= 1,
                forall|j: int| i <= j < N ==> self@[j] == a0[j],
                digits_value(self@.subrange(0, i as int)) == digits_value(
                    a0.subrange(0, i as int),
                ) - digits_value(other@.subrange(0, i as int)) + (borrow as int) * (pow2(
                    (64 * i) as nat,
                ) as int),
            decreases N - i,
        {
            let ghost prev = self@;
            let ghost ci = borrow as int;
            let (res, b) = sbb(self.data[i], other.data[i], borrow);
            self.data[i] = res;
            borrow = b;
            proof {
                let p = pow2((64 * i) as nat) as int;
                let b64 = pow2(64) as int;
                lemma2_to64();
                lemma_pow2_adds((64 * i) as nat, 64);
                assert(self@.subrange(0, i as int) =~= prev.subrange(0, i as int));
                lemma_prefix_extend(self@, i as int);
                lemma_prefix_extend(a0, i as int);
                lemma_prefix_extend(other@, i as int);
                let ai = prev[i as int] as int;
                let bi = other@[i as int] as int;
                assert(ai == a0[i as int]);
                assert((res as int) * p == ai * p - bi * p - ci * p + (b as int) * (b64 * p))
                    by (nonlinear_arith)
                    requires
                        (res as int) == ai - bi - ci + (b as int) * b64,
                ;
            }
            i += 1;
        }
        proof {
            assert(self@.subrange(0, N as int) =~= self@);
            assert(a0.subrange(0, N as int) =~= a0);
            assert(other@.subrange(0, N as int) =~= other@);
            lemma_value_bound(self@);
            lemma_pow2_pos((64 * N) as nat);
            let m = pow2((64 * N) as nat) as int;
            assert(digits_value(self@) == digits_value(a0) - digits_value(other@) + (borrow
                as int) * m);
            assert((-(borrow as int)) * m == -((borrow as int) * m)) by (nonlinear_arith);
            assert(digits_value(a0) - digits_value(other@) == (-(borrow as int)) * m
                + digits_value(self@));
            lemma_fundamental_div_mod_converse_mod(
                digits_value(a0) - digits_value(other@),
                m,
                -(borrow as int),
                digits_value(self@) as int,
            );
        }
    }

    /// Index-aligned multiplication in place: at each digit index it forms
    /// the widening product of this value's digit with `other`'s digit at
    /// the same index, adds the carry from the previous index, stores the
    /// low word and carries the high word forward, discarding the final
    /// carry. This computes `sum self[i] * other[i] * 2^(64*i)` modulo
    /// `2^(64*N)` — the elementwise digit products only, not the full
    /// cross-digit schoolbook product.
    #[verifier::loop_isolation(false)]
    pub fn mul_assign(&mut self, other: &Self)
        ensures
            final(self).value() == elem_prod_value(old(self)@, other@) % pow2((64 * N) as nat),
    {
        let ghost a0: Seq<u64> = self@;
        let mut carry: u64 = 0;
        let mut i: usize = 0;
        while i < N
            invariant
                i <= N,
                forall|j: int| i <= j < N ==> self@[j] == a0[j],
                digits_value(self@.subrange(0, i as int)) + (carry as nat) * pow2(
                    (64 * i) as nat,
                ) == elem_prod_value(a0.subrange(0, i as int), other@.subrange(0, i as int)),
            decreases N - i,
        {
            let ghost prev = self@;
            let ghost ci = carry as int;
            let (res, c) = mac(0, self.data[i], other.data[i], carry);
            carry = c;
            self.data[i] = res;
            proof {
                let p = pow2((64 * i) as nat) as int;
                let b64 = pow2(64) as int;
                lemma2_to64();
                lemma_pow2_adds((64 * i) as nat, 64);
                assert(self@.subrange(0, i as int) =~= prev.subrange(0, i as int));
                lemma_prefix_extend(self@, i as int);
                lemma_elem_prod_prefix_extend(a0, other@, i as int);
                let ai = prev[i as int] as int;
                let bi = other@[i as int] as int;
                assert(ai == a0[i as int]);
                assert((res as int) * p + (c as int) * (b64 * p) - ci * p == (ai * bi) * p)
                    by (nonlinear_arith)
                    requires
                        (res as int) + (c as int) * b64 == ai * bi + ci,
                ;
            }
            i += 1;
        }
        proof {
            assert(self@.subrange(0, N as int) =~= self@);
            assert(a0.subrange(0, N as int) =~= a0);
            assert(other@.subrange(0, N as int) =~= other@);
            lemma_value_bound(self@);
            lemma_pow2_pos((64 * N) as nat);
            lemma_fundamental_div_mod_converse_mod(
                elem_prod_value(a0, other@) as int,
                pow2((64 * N) as nat) as int,
                carry as int,
                digits_value(self@) as int,
            );
        }
    }

    /// The diagnostic textual rendering: `0x`, then the digits most
    /// significant first, each in lowercase hexadecimal at least two
    /// characters wide. A digit above `0xff` widens its own field, so the
    /// total width varies with the digits' magnitudes.
    #[verifier::loop_isolation(false)]
    pub fn to_hex(&self) -> (r: String)
        ensures
            r@ == seq!['0', 'x'] + hex_render(self@),
    {
        let mut r = String::new();
        push_char(&mut r, '0');
        push_char(&mut r, 'x');
        proof {
            assert(self@.subrange(N as int, N as int).len() == 0);
            assert(r@ =~= seq!['0', 'x'] + hex_render(self@.subrange(N as int, N as int)));
        }
        let mut i: usize = N;
        while i > 0
            invariant
                i <= N,
                r@ == seq!['0', 'x'] + hex_render(self@.subrange(i as int, N as int)),
            decreases i,
        {
            i -= 1;
            push_hex_pad2(&mut r, self.data[i]);
            proof {
                let t = self@.subrange(i as int, N as int);
                assert(t.subrange(1, t.len() as int) =~= self@.subrange(i + 1, N as int));
                assert(t[0] == self@[i as int]);
                assert(r@ =~= seq!['0', 'x'] + hex_render(t));
            }
        }
        proof {
            assert(self@.subrange(0, N as int) =~= self@);
        }
        r
    }

    /// The binary form of [`Uint::add_assign`]: returns the wrapped sum,
    /// leaving both operands unchanged.
    pub fn wrapping_add(self, other: &Self) -> (r: Self)
        ensures
            r.value() == (self.value() + other.value()) % pow2((64 * N) as nat),
    {
        let mut r = self;
        r.add_assign(other);
        r
    }

    /// The binary form of [`Uint::sub_assign`]: returns the wrapped
    /// difference, leaving both operands unchanged.
    pub fn wrapping_sub(self, other: &Self) -> (r: Self)
        ensures
            r.value() == (self.value() - other.value()) % (pow2((64 * N) as nat) as int),
    {
        let mut r = self;
        r.sub_assign(other);
        r
    }

    /// The binary form of [`Uint::mul_assign`]: returns the wrapped
    /// index-aligned product, leaving both operands unchanged.
    pub fn wrapping_mul(self, other: &Self) -> (r: Self)
        ensures
            r.value() == elem_prod_value(self@, other@) % pow2((64 * N) as nat),
    {
        let mut r = self;
        r.mul_assign(other);
        r
    }
}

impl<const N: usize> Default for Uint<N> {
    /// The default value is zero.
    fn default() -> (r: Self)
        ensures
            r.value() == 0,
    {
        Self::zero()
    }
}

impl<const N: usize> PartialEq for Uint<N> {
    /// Digit-wise equality, as [`Uint::is_eq`] computes it.
    fn eq(&self, other: &Self) -> (r: bool) {
        self.is_eq(other)
    }
}

impl<const N: usize> vstd::std_specs::cmp::PartialEqSpecImpl for Uint<N> {
    open spec fn obeys_eq_spec() -> bool {
        true
    }

    open spec fn eq_spec(&self, other: &Self) -> bool {
        self@ == other@
    }
}

impl<const N: usize> Eq for Uint<N> {

}

} // verus!
