//! Trusted boundary around num-bigint's unsigned big integers.
//!
//! A big integer is modeled by its canonical little-endian base-2^64 digit
//! sequence, [`big_digits`]; its numeric value, [`big_value`], is the fold
//! of those digits. Each wrapper states the exact arithmetic the crate's
//! source performs.

use vstd::prelude::*;

verus! {

/// Declares num_bigint::BigUint, an arbitrary-precision unsigned integer,
/// so that it can stand in signatures and fields; its values are opaque and
/// are reasoned about only through [`big_digits`] and the wrappers below.
#[verifier::external_type_specification]
#[verifier::external_body]
pub struct ExBigUint(num_bigint::BigUint);

/// The little-endian base-2^64 digits of a big integer, with no trailing
/// zero digit: what `num_bigint::BigUint::to_u64_digits` returns.
pub uninterp spec fn big_digits(b: num_bigint::BigUint) -> Seq<u64>;

/// The numeric value carried by little-endian base-2^64 digits.
pub open spec fn digits_value(ds: Seq<u64>) -> nat
    decreases ds.len(),
{
    if ds.len() == 0 {
        0
    } else {
        (ds[0] as nat) + digits_value(ds.skip(1)) * 0x1_0000_0000_0000_0000
    }
}

/// The numeric value of a big integer.
pub open spec fn big_value(b: num_bigint::BigUint) -> nat {
    digits_value(big_digits(b))
}

/// Relies on num_bigint::BigUint::to_u64_digits: the canonical little-endian
/// base-2^64 digits of the value, with no trailing zero digit.
#[verifier::external_body]
pub(crate) fn big_to_u64_digits(b: &num_bigint::BigUint) -> (r: Vec<u64>)
    ensures
        r@ == big_digits(*b),
        r@.len() > 0 ==> r@.last() != 0,
{
    b.to_u64_digits()
}

/// Relies on num_bigint::BigUint::from for u64: the big integer of exactly
/// that value.
#[verifier::external_body]
pub(crate) fn big_from_u64(v: u64) -> (r: num_bigint::BigUint)
    ensures
        big_value(r) == v as nat,
{
    num_bigint::BigUint::from(v)
}

/// Relies on Clone for num_bigint::BigUint: an equal value.
#[verifier::external_body]
pub(crate) fn big_clone(b: &num_bigint::BigUint) -> (r: num_bigint::BigUint)
    ensures
        big_value(r) == big_value(*b),
{
    b.clone()
}

/// Relies on Mul<u32> for &num_bigint::BigUint: the exact product.
#[verifier::external_body]
pub(crate) fn big_mul_u32(b: &num_bigint::BigUint, m: u32) -> (r: num_bigint::BigUint)
    ensures
        big_value(r) == big_value(*b) * (m as nat),
{
    b * m
}

/// Relies on Add<u32> for &num_bigint::BigUint: the exact sum.
#[verifier::external_body]
pub(crate) fn big_add_u32(b: &num_bigint::BigUint, a: u32) -> (r: num_bigint::BigUint)
    ensures
        big_value(r) == big_value(*b) + (a as nat),
{
    b + a
}

/// Relies on Div<u32> for &num_bigint::BigUint: the Euclidean quotient.
/// The divisor must not be zero, for the division would panic.
#[verifier::external_body]
pub(crate) fn big_div_u32(b: &num_bigint::BigUint, d: u32) -> (r: num_bigint::BigUint)
    requires
        d >= 1,
    ensures
        big_value(r) == big_value(*b) / (d as nat),
{
    b / d
}

/// Relies on Rem<u32> for &num_bigint::BigUint: the Euclidean remainder.
/// The divisor must not be zero, for the division would panic.
#[verifier::external_body]
pub(crate) fn big_rem_u32(b: &num_bigint::BigUint, d: u32) -> (r: num_bigint::BigUint)
    requires
        d >= 1,
    ensures
        big_value(r) == big_value(*b) % (d as nat),
{
    b % d
}

/// A digit sequence with a nonzero top digit carries a nonzero value.
proof fn lemma_digits_value_pos(ds: Seq<u64>)
    requires
        ds.len() >= 1,
        ds.last() != 0,
    ensures
        digits_value(ds) >= 1,
    decreases ds.len(),
{
    if ds.len() == 1 {
    } else {
        let tail = ds.skip(1);
        assert(tail.last() == ds.last());
        lemma_digits_value_pos(tail);
        assert(digits_value(tail) * 0x1_0000_0000_0000_0000 >= 1) by (nonlinear_arith)
            requires
                digits_value(tail) >= 1,
        ;
    }
}

/// Whether a big integer is zero, decided from its digits.
pub(crate) fn big_is_zero(b: &num_bigint::BigUint) -> (r: bool)
    ensures
        r <==> big_value(*b) == 0,
{
    let ds = big_to_u64_digits(b);
    proof {
        if ds@.len() >= 1 {
            lemma_digits_value_pos(ds@);
        }
    }
    ds.len() == 0
}

/// The value of a big integer as a machine word, where it fits.
pub(crate) fn big_as_u64(b: &num_bigint::BigUint) -> (r: Option<u64>)
    ensures
        r is Some <==> big_value(*b) <= u64::MAX,
        r matches Some(v) ==> (v as nat) == big_value(*b),
{
    let ds = big_to_u64_digits(b);
    if ds.len() == 0 {
        proof {
            assert(digits_value(big_digits(*b)) == 0);
        }
        Some(0)
    } else if ds.len() == 1 {
        proof {
            assert(big_digits(*b).skip(1) =~= Seq::<u64>::empty());
            assert(digits_value(Seq::<u64>::empty()) == 0);
            assert(digits_value(big_digits(*b)) == ds@[0] + digits_value(Seq::<u64>::empty())
                * 0x1_0000_0000_0000_0000);
        }
        Some(ds[0])
    } else {
        proof {
            let tail = big_digits(*b).skip(1);
            assert(tail.last() == big_digits(*b).last());
            lemma_digits_value_pos(tail);
            assert(digits_value(tail) * 0x1_0000_0000_0000_0000 >= 0x1_0000_0000_0000_0000)
                by (nonlinear_arith)
                requires
                    digits_value(tail) >= 1,
            ;
        }
        None
    }
}

} // verus!
