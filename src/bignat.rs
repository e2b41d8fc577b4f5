//! Arbitrary-precision natural numbers.
//!
//! A `BigNat` keeps its value as base 2^32 limbs, least significant first, and
//! is viewed as the mathematical `nat` those limbs denote. The arithmetic itself
//! is done by `num_bigint::BigUint`; each operation below converts the limbs to a
//! `BigUint`, makes one call, and converts the result back.

use crate::arith::twos;
use vstd::arithmetic::power::pow;
use vstd::arithmetic::power2::pow2;
use num_bigint::{BigUint, RandBigInt};
use num_traits::ToPrimitive;
use vstd::prelude::*;

verus! {

/// The value of a little-endian sequence of base 2^32 limbs.
pub open spec fn limbs_value(s: Seq<u32>) -> nat
    decreases s.len(),
{
    if s.len() == 0 {
        0
    } else {
        s[0] as nat + 4294967296 * limbs_value(s.subrange(1, s.len() as int))
    }
}

/// An arbitrary-precision natural number.
#[derive(Clone, Debug)]
pub struct BigNat {
    limbs: Vec<u32>,
}

impl View for BigNat {
    type V = nat;

    closed spec fn view(&self) -> nat {
        limbs_value(self.limbs@)
    }
}

impl BigNat {
    /// The number `v`.
    pub fn from_u64(v: u64) -> (r: BigNat)
        ensures
            r@ == v as nat,
    {
        let lo = (v % 4294967296) as u32;
        let hi = (v / 4294967296) as u32;
        let mut limbs: Vec<u32> = Vec::new();
        limbs.push(lo);
        limbs.push(hi);
        let r = BigNat { limbs };
        proof {
            let s = r.limbs@;
            assert(s.subrange(1, 2).subrange(1, 1) =~= Seq::<u32>::empty());
            assert(s.subrange(1, 2)[0] == hi);
            reveal_with_fuel(limbs_value, 3);
        }
        r
    }

    /// The number whose base 2^32 digits, least significant first, are `limbs`.
    pub fn from_limbs(limbs: Vec<u32>) -> (r: BigNat)
        ensures
            r@ == limbs_value(limbs@),
    {
        BigNat { limbs }
    }

    /// A copy of the number.
    pub fn clone_value(&self) -> (r: BigNat)
        ensures
            r@ == self@,
    {
        let limbs = self.limbs.clone();
        assert(limbs@ =~= self.limbs@);
        BigNat { limbs }
    }

    /// The base 2^32 digits, least significant first.
    pub fn to_limbs(&self) -> (r: Vec<u32>)
        ensures
            limbs_value(r@) == self@,
    {
        let limbs = self.limbs.clone();
        assert(limbs@ =~= self.limbs@);
        limbs
    }

    /// Relies on `BigUint`'s `PartialOrd`: compares the two values.
    #[verifier::external_body]
    pub(crate) fn le(&self, other: &BigNat) -> (r: bool)
        ensures
            r == (self@ <= other@),
    {
        BigUint::from_slice(&self.limbs) <= BigUint::from_slice(&other.limbs)
    }

    /// Relies on `BigUint`'s `PartialEq`: compares the two values.
    #[verifier::external_body]
    pub(crate) fn equals(&self, other: &BigNat) -> (r: bool)
        ensures
            r == (self@ == other@),
    {
        BigUint::from_slice(&self.limbs) == BigUint::from_slice(&other.limbs)
    }

    /// Relies on `BigUint`'s `Add`: the sum of the two values.
    #[verifier::external_body]
    pub(crate) fn plus(&self, other: &BigNat) -> (r: BigNat)
        ensures
            r@ == self@ + other@,
    {
        let s = BigUint::from_slice(&self.limbs) + BigUint::from_slice(&other.limbs);
        BigNat { limbs: s.to_u32_digits() }
    }

    /// Relies on `BigUint`'s `Sub`, which panics when the result would be negative.
    #[verifier::external_body]
    pub(crate) fn minus(&self, other: &BigNat) -> (r: BigNat)
        requires
            other@ <= self@,
        ensures
            r@ == self@ - other@,
    {
        let s = BigUint::from_slice(&self.limbs) - BigUint::from_slice(&other.limbs);
        BigNat { limbs: s.to_u32_digits() }
    }

    /// Relies on `BigUint`'s `Rem`, which panics on a zero divisor.
    #[verifier::external_body]
    pub(crate) fn rem(&self, m: &BigNat) -> (r: BigNat)
        requires
            m@ > 0,
        ensures
            r@ == self@ % m@,
    {
        let s = BigUint::from_slice(&self.limbs) % BigUint::from_slice(&m.limbs);
        BigNat { limbs: s.to_u32_digits() }
    }

    /// Relies on `BigUint`'s `Shr<u64>`: the value divided by `2^k`, rounded down.
    #[verifier::external_body]
    pub(crate) fn shr(&self, k: u64) -> (r: BigNat)
        ensures
            r@ == self@ / pow2(k as nat),
    {
        let s = BigUint::from_slice(&self.limbs) >> k;
        BigNat { limbs: s.to_u32_digits() }
    }

    /// Relies on `BigUint::trailing_zeros`: the number of low zero bits, `None` for zero.
    #[verifier::external_body]
    pub(crate) fn trailing_zeros(&self) -> (r: Option<u64>)
        ensures
            self@ == 0 ==> r is None,
            self@ > 0 ==> r is Some && r.unwrap() as nat == twos(self@),
    {
        BigUint::from_slice(&self.limbs).trailing_zeros()
    }

    /// Relies on `BigUint::modpow`: `self^e mod m`; it panics for a zero modulus.
    #[verifier::external_body]
    pub(crate) fn modpow(&self, e: &BigNat, m: &BigNat) -> (r: BigNat)
        requires
            m@ > 0,
        ensures
            r@ == pow(self@ as int, e@) % (m@ as int),
    {
        let b = BigUint::from_slice(&self.limbs);
        let s = b.modpow(&BigUint::from_slice(&e.limbs), &BigUint::from_slice(&m.limbs));
        BigNat { limbs: s.to_u32_digits() }
    }

    /// Relies on `ToPrimitive::to_u64` for `BigUint`: `None` when the value exceeds `u64::MAX`.
    #[verifier::external_body]
    pub(crate) fn to_u64(&self) -> (r: Option<u64>)
        ensures
            self@ <= u64::MAX ==> r == Some(self@ as u64),
            self@ > u64::MAX ==> r is None,
    {
        BigUint::from_slice(&self.limbs).to_u64()
    }
}

/// An arbitrary-precision integer: a sign and a magnitude.
#[derive(Clone, Debug)]
pub struct BigInt {
    negative: bool,
    magnitude: BigNat,
}

impl View for BigInt {
    type V = int;

    closed spec fn view(&self) -> int {
        if self.negative {
            -(self.magnitude@ as int)
        } else {
            self.magnitude@ as int
        }
    }
}

impl BigInt {
    /// The number `-magnitude` when `negative`, else `magnitude`.
    pub fn from_parts(negative: bool, magnitude: BigNat) -> (r: BigInt)
        ensures
            r@ == if negative { -(magnitude@ as int) } else { magnitude@ as int },
    {
        BigInt { negative, magnitude }
    }

    /// The number `v`.
    pub fn from_i64(v: i64) -> (r: BigInt)
        ensures
            r@ == v as int,
    {
        if v < 0 {
            let m: u64 = if v == i64::MIN { 9223372036854775808u64 } else { (-v) as u64 };
            BigInt { negative: true, magnitude: BigNat::from_u64(m) }
        } else {
            BigInt { negative: false, magnitude: BigNat::from_u64(v as u64) }
        }
    }

    /// The sign: whether the number is below zero (a negative zero is not).
    pub fn is_negative(&self) -> (r: bool)
        ensures
            r == (self@ < 0),
    {
        self.negative && !self.magnitude.le(&BigNat::from_u64(0))
    }

    /// The absolute value.
    pub fn magnitude(&self) -> (r: &BigNat)
        ensures
            r@ as int == if self@ < 0 { -self@ } else { self@ },
    {
        &self.magnitude
    }
}

/// Relies on `RandBigInt::gen_biguint_range` with the operating system's
/// random source: a value in `[lo, hi)`; it panics unless `lo < hi`.
#[verifier::external_body]
pub(crate) fn random_in_range(lo: &BigNat, hi: &BigNat) -> (r: BigNat)
    requires
        lo@ < hi@,
    ensures
        lo@ <= r@ < hi@,
{
    let mut rng = rand::rngs::OsRng;
    let s = rng.gen_biguint_range(&BigUint::from_slice(&lo.limbs), &BigUint::from_slice(&hi.limbs));
    BigNat { limbs: s.to_u32_digits() }
}

} // verus!
