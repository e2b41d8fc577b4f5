//! Primality testing: trial division by the primes below 10,000, then the
//! Miller-Rabin test (FIPS 186-5, appendix B.3.1).

use crate::arith::{divides, is_prime, twos};
use crate::bignat::{random_in_range, BigInt, BigNat};
use crate::prime_iter;
use vstd::arithmetic::power::pow;
use vstd::arithmetic::power2::pow2;
use vstd::prelude::*;

verus! {

/// Trial division uses every prime below this bound.
pub const TRIAL_LIMIT: u64 = 10000;

/// `w` has a prime factor below the trial-division bound.
pub open spec fn has_small_factor(w: nat) -> bool {
    exists|p: nat| is_prime(p) && p < TRIAL_LIMIT && #[trigger] divides(p, w)
}

/// The odd part `m` of `w - 1 = 2^a * m`.
pub open spec fn odd_part(n: nat) -> nat {
    n / pow2(twos(n))
}

/// The residue `b^(m * 2^j) mod w`, where `w - 1 = 2^a * m` with `m` odd.
pub open spec fn square_chain(w: nat, b: nat, j: nat) -> int {
    pow(b as int, odd_part((w - 1) as nat) * pow2(j)) % (w as int)
}

/// `w` passes one Miller-Rabin round with base `b`: `b^m = 1` or `b^m = -1
/// (mod w)`, or `b^(m * 2^j) = -1 (mod w)` for some `1 <= j < a`, where
/// `w - 1 = 2^a * m` with `m` odd.
pub open spec fn strong_probable_prime(w: nat, b: nat) -> bool {
    ||| square_chain(w, b, 0) == 1
    ||| square_chain(w, b, 0) == w - 1
    ||| exists|j: nat| 1 <= j < twos((w - 1) as nat) && #[trigger] square_chain(w, b, j) == w - 1
}

/// What trial division decides alone: `Some(verdict)`, or `None` when
/// `w >= 10,000` has no prime factor below 10,000.
pub open spec fn trial_verdict(w: nat) -> Option<bool> {
    if w <= 1 {
        Some(false)
    } else if w < TRIAL_LIMIT {
        Some(is_prime(w))
    } else if has_small_factor(w) {
        Some(false)
    } else {
        None
    }
}

/// The verdict of the whole test on `w` with the given Miller-Rabin bases.
pub open spec fn verdict(w: nat, bases: Seq<nat>) -> bool {
    match trial_verdict(w) {
        Some(v) => v,
        None => forall|i: int| 0 <= i < bases.len() ==> strong_probable_prime(w, #[trigger] bases[i]),
    }
}

/// `s` holds the primes below the trial-division bound, and nothing else.
pub open spec fn trial_list(s: Seq<u64>) -> bool {
    &&& forall|i: int| 0 <= i < s.len() ==> is_prime(#[trigger] s[i] as nat) && s[i] < TRIAL_LIMIT
    &&& forall|q: nat| #![trigger is_prime(q)] is_prime(q) && q < TRIAL_LIMIT ==> s.contains(q as u64)
}

/// The primes below the trial-division bound, in increasing order.
pub fn small_primes() -> (r: Vec<u64>)
    ensures
        forall|i: int, j: int| 0 <= i < j < r@.len() ==> r@[i] < r@[j],
        trial_list(r@),
{
    let mut primes = prime_iter::new(TRIAL_LIMIT - 1);
    let mut r: Vec<u64> = Vec::new();
    loop
        invariant
            primes.wf(),
            primes.bound() == TRIAL_LIMIT - 1,
            2 <= primes.lower() <= TRIAL_LIMIT,
            forall|i: int, j: int| 0 <= i < j < r@.len() ==> r@[i] < r@[j],
            forall|i: int| 0 <= i < r@.len() ==> is_prime(#[trigger] r@[i] as nat) && r@[i] < primes.lower(),
            forall|q: nat| #![trigger is_prime(q)] is_prime(q) && q < primes.lower() ==> r@.contains(q as u64),
        decreases TRIAL_LIMIT - primes.lower(),
    {
        let ghost l0 = primes.lower();
        let ghost r0 = r@;
        match primes.next() {
            None => {
                return r;
            },
            Some(p) => {
                r.push(p);
                proof {
                    assert forall|q: nat| #![trigger is_prime(q)] is_prime(q) && q < primes.lower() implies r@.contains(q as u64) by {
                        if q == p {
                            assert(r@[r@.len() - 1] == p);
                        } else {
                            let j = choose|j: int| 0 <= j < r0.len() && r0[j] == q as u64;
                            assert(r@[j] == q as u64);
                        }
                    }
                }
            },
        }
    }
}

/// Trial division of `w` by the primes in `primes` (those below the bound).
pub fn trial_division(w: &BigNat, primes: &Vec<u64>) -> (r: Option<bool>)
    requires
        trial_list(primes@),
    ensures
        r == trial_verdict(w@),
{
    let one = BigNat::from_u64(1);
    if w.le(&one) {
        return Some(false);
    }
    let zero = BigNat::from_u64(0);
    let mut i: usize = 0;
    while i < primes.len()
        invariant
            w@ >= 2,
            zero@ == 0,
            forall|k: int| 0 <= k < primes@.len() ==> is_prime(#[trigger] primes@[k] as nat) && primes@[k] < TRIAL_LIMIT,
            forall|k: int| 0 <= k < i ==> w@ != #[trigger] primes@[k] && !divides(primes@[k] as nat, w@),
        decreases primes.len() - i,
    {
        let p = BigNat::from_u64(primes[i]);
        if w.equals(&p) {
            return Some(true);
        }
        if w.rem(&p).equals(&zero) {
            proof {
                assert(divides(p@, w@));
                if w@ < TRIAL_LIMIT {
                    assert(p@ <= w@) by {
                        vstd::arithmetic::div_mod::lemma_mod_self_0(p@ as int);
                        if p@ > w@ {
                            vstd::arithmetic::div_mod::lemma_small_mod(w@, p@);
                        }
                    }
                    assert(divides(p@, w@) && 2 <= p@ < w@);
                }
            }
            return Some(false);
        }
        i = i + 1;
    }
    proof {
        assert forall|p: nat| is_prime(p) && p < TRIAL_LIMIT implies !#[trigger] divides(p, w@) by {
            let k = choose|k: int| 0 <= k < primes@.len() && primes@[k] == p as u64;
        }
        if w@ < TRIAL_LIMIT {
            if is_prime(w@) {
                let k = choose|k: int| 0 <= k < primes@.len() && primes@[k] == w@ as u64;
            } else {
                let d = crate::prime_iter::lemma_prime_divisor(w@);
            }
        }
    }
    None
}

/// Each residue of the chain is the square of the one before it.
proof fn lemma_chain_step(w: nat, b: nat, k: nat)
    requires
        w >= 2,
    ensures
        square_chain(w, b, k + 1) == pow(square_chain(w, b, k), 2) % (w as int),
{
    let o = odd_part((w - 1) as nat);
    let e = o * pow2(k);
    vstd::arithmetic::power2::lemma_pow2_unfold(k + 1);
    assert(o * pow2(k + 1) == e * 2) by (nonlinear_arith)
        requires pow2(k + 1) == 2 * pow2(k), e == o * pow2(k);
    vstd::arithmetic::power::lemma_pow_multiplies(b as int, e, 2);
    vstd::arithmetic::power::lemma_pow_mod_noop(pow(b as int, e), 2, w as int);
}

/// Once the chain reaches 1 it stays at 1.
proof fn lemma_chain_stuck(w: nat, b: nat, k: nat, l: nat)
    requires
        w >= 2,
        square_chain(w, b, k) == 1,
        k <= l,
    ensures
        square_chain(w, b, l) == 1,
    decreases l - k,
{
    if k < l {
        lemma_chain_stuck(w, b, k, (l - 1) as nat);
        lemma_chain_step(w, b, (l - 1) as nat);
        vstd::arithmetic::power::lemma1_pow(2);
        vstd::arithmetic::div_mod::lemma_small_mod(1, w);
    }
}

/// One Miller-Rabin round on `w` with base `b`.
pub fn miller_rabin_round(w: &BigNat, b: &BigNat) -> (r: bool)
    requires
        w@ >= 3,
    ensures
        r == strong_probable_prime(w@, b@),
{
    let one = BigNat::from_u64(1);
    let two = BigNat::from_u64(2);
    let w1 = w.minus(&one);
    let a = match w1.trailing_zeros() {
        Some(a) => a,
        None => return false,
    };
    let m = w1.shr(a);
    let mut z = b.modpow(&m, w);
    proof {
        assert(pow2(0) == 1) by {
            reveal(pow);
            vstd::arithmetic::power::lemma_pow0(2);
        }
        assert(m@ == odd_part(w1@));
        assert(m@ * pow2(0) == m@);
        assert(z@ == square_chain(w@, b@, 0));
    }
    if z.equals(&one) || z.equals(&w1) {
        return true;
    }
    let mut k: u64 = 0;
    while k + 1 < a
        invariant
            w@ >= 3,
            w1@ == w@ - 1,
            one@ == 1,
            two@ == 2,
            a == twos(w1@),
            k < a || (k == 0 && a == 0),
            z@ == square_chain(w@, b@, k as nat),
            square_chain(w@, b@, 0) != 1,
            square_chain(w@, b@, 0) != w@ - 1,
            forall|j: nat| 1 <= j <= k ==> #[trigger] square_chain(w@, b@, j) != w@ - 1,
        decreases a - k,
    {
        proof {
            lemma_chain_step(w@, b@, k as nat);
        }
        z = z.modpow(&two, w);
        k = k + 1;
        if z.equals(&w1) {
            return true;
        }
        if z.equals(&one) {
            proof {
                assert forall|j: nat| 1 <= j < twos((w@ - 1) as nat) implies #[trigger] square_chain(w@, b@, j) != w@ - 1 by {
                    if j > k {
                        lemma_chain_stuck(w@, b@, k as nat, j);
                    }
                }
            }
            return false;
        }
    }
    false
}

/// The values of a sequence of numbers.
pub open spec fn values(bases: Seq<BigNat>) -> Seq<nat> {
    bases.map_values(|b: BigNat| b@)
}

/// Trial division, then one Miller-Rabin round for each of `bases`, in order.
pub fn is_probable_prime_with_bases(w: &BigNat, bases: &Vec<BigNat>) -> (r: bool)
    ensures
        r == verdict(w@, values(bases@)),
{
    let primes = small_primes();
    if let Some(v) = trial_division(w, &primes) {
        return v;
    }
    rounds_pass(w, bases)
}

/// One Miller-Rabin round for each of `bases`, in order, on a `w` that trial
/// division left undecided; stops at the first round that fails.
pub fn rounds_pass(w: &BigNat, bases: &Vec<BigNat>) -> (r: bool)
    requires
        trial_verdict(w@) is None,
    ensures
        r == verdict(w@, values(bases@)),
{
    let mut i: usize = 0;
    while i < bases.len()
        invariant
            trial_verdict(w@) is None,
            w@ >= TRIAL_LIMIT,
            forall|k: int| 0 <= k < i ==> strong_probable_prime(w@, #[trigger] values(bases@)[k]),
        decreases bases.len() - i,
    {
        if !miller_rabin_round(w, &bases[i]) {
            proof {
                assert(values(bases@)[i as int] == bases@[i as int]@);
                assert(!strong_probable_prime(w@, values(bases@)[i as int]));
            }
            return false;
        }
        i = i + 1;
    }
    true
}

/// What holds of the randomised test's answer `r` on `w` with `rounds` rounds:
/// trial division decides where it can; otherwise `true` means that `rounds`
/// bases drawn from `[2, w - 1)` all passed, and `false` that one such base failed.
pub open spec fn probable_prime_outcome(w: nat, rounds: nat, r: bool) -> bool {
    match trial_verdict(w) {
        Some(v) => r == v,
        None => {
            &&& r ==> exists|bs: Seq<nat>|
                bs.len() == rounds && forall|i: int|
                    0 <= i < bs.len() ==> 2 <= #[trigger] bs[i] < w - 1 && strong_probable_prime(w, bs[i])
            &&& !r ==> exists|b: nat| 2 <= b < w - 1 && !#[trigger] strong_probable_prime(w, b)
        },
    }
}

/// Trial division, then `iter` Miller-Rabin rounds with bases drawn from the
/// operating system's random source.
pub fn is_probable_prime(w: &BigNat, iter: usize) -> (r: bool)
    ensures
        probable_prime_outcome(w@, iter as nat, r),
{
    let primes = small_primes();
    is_probable_prime_with_primes(w, &primes, iter)
}

/// `is_probable_prime` with a prime list built beforehand (by `small_primes`),
/// so that callers can build it once and share it.
pub fn is_probable_prime_with_primes(w: &BigNat, primes: &Vec<u64>, iter: usize) -> (r: bool)
    requires
        trial_list(primes@),
    ensures
        probable_prime_outcome(w@, iter as nat, r),
{
    if let Some(v) = trial_division(w, primes) {
        return v;
    }
    let two = BigNat::from_u64(2);
    let w1 = w.minus(&BigNat::from_u64(1));
    let ghost mut drawn: Seq<nat> = Seq::empty();
    let mut i: usize = 0;
    while i < iter
        invariant
            trial_verdict(w@) is None,
            w@ >= TRIAL_LIMIT,
            two@ == 2,
            w1@ == w@ - 1,
            i <= iter,
            drawn.len() == i,
            forall|k: int| 0 <= k < i ==> 2 <= #[trigger] drawn[k] < w@ - 1 && strong_probable_prime(w@, drawn[k]),
        decreases iter - i,
    {
        let b = random_in_range(&two, &w1);
        if !miller_rabin_round(w, &b) {
            return false;
        }
        proof {
            drawn = drawn.push(b@);
        }
        i = i + 1;
    }
    true
}

/// The test on a signed number: zero and negative numbers are not prime.
pub fn is_probable_prime_bigint(w: &BigInt, iter: usize) -> (r: bool)
    ensures
        w@ <= 0 ==> !r,
        w@ > 0 ==> probable_prime_outcome(w@ as nat, iter as nat, r),
{
    if w.is_negative() || w.magnitude().le(&BigNat::from_u64(0)) {
        return false;
    }
    is_probable_prime(w.magnitude(), iter)
}

/// Below 10,000 squared trial division alone decides: whatever the bases, a
/// number that is accepted is prime, a number below 10,000 is accepted exactly
/// when it is prime, and the Miller-Rabin rounds are reached only by primes.
pub proof fn lemma_exact_below_trial_square(w: nat, bases: Seq<nat>)
    requires
        w < TRIAL_LIMIT * TRIAL_LIMIT,
    ensures
        verdict(w, bases) ==> is_prime(w),
        w < TRIAL_LIMIT ==> verdict(w, bases) == is_prime(w),
        trial_verdict(w) is None ==> is_prime(w),
{
    if trial_verdict(w) is None && !is_prime(w) {
        let d = crate::prime_iter::lemma_prime_divisor(w);
        if d >= TRIAL_LIMIT {
            assert(d * d >= TRIAL_LIMIT * TRIAL_LIMIT) by (nonlinear_arith)
                requires d >= TRIAL_LIMIT;
        }
        assert(is_prime(d) && d < TRIAL_LIMIT && divides(d, w));
    }
}

} // verus!
