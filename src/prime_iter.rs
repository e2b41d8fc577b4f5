//! A lazy, incremental Sieve of Eratosthenes.
//!
//! The sieve keeps, for each odd prime found so far, the next odd multiple of
//! it that is still ahead of the candidate, in an ordered map from that
//! multiple to the stride `2 * p`. A candidate that is a key of the map is
//! composite; one that is not is prime. The fixed-width integer type the
//! primes are produced in is modelled by its largest value `max`: the sequence
//! ends once the candidate would exceed it.

use crate::arith::{
    divides, is_prime, lemma_divisor_of_odd, lemma_multiples_apart, lemma_odd_multiples,
    lemma_step_multiple,
};
use std::collections::BTreeMap;
use vstd::prelude::*;

verus! {

broadcast use vstd::std_specs::btree::group_btree_axioms, vstd::laws_cmp::group_laws_cmp;

/// A composite `n` has a prime divisor `d` with `d * d <= n`.
pub proof fn lemma_prime_divisor(n: nat) -> (d: nat)
    requires
        n >= 2,
        !is_prime(n),
    ensures
        is_prime(d),
        divides(d, n),
        d * d <= n,
        2 <= d < n,
{
    let e = choose|e: nat| 2 <= e < n && #[trigger] divides(e, n);
    lemma_small_prime_divisor(n, e)
}

proof fn lemma_small_prime_divisor(n: nat, e: nat) -> (d: nat)
    requires
        2 <= e < n,
        divides(e, n),
    ensures
        is_prime(d),
        divides(d, n),
        d * d <= n,
        2 <= d < n,
    decreases e,
{
    let d = lemma_least_divisor(n, e);
    let q = n / d;
    assert(n == d * q) by (nonlinear_arith)
        requires d > 0, n % d == 0, q == n / d;
    if d * d <= n {
        d
    } else {
        assert(q < d) by (nonlinear_arith)
            requires n == d * q, d * d > n, d > 0;
        assert(q >= 2) by (nonlinear_arith)
            requires n == d * q, n >= 2, d < n, d > 0;
        assert(n % q == 0) by (nonlinear_arith)
            requires n == d * q, q >= 2;
        lemma_small_prime_divisor(n, q)
    }
}

/// The least divisor of `n` at least 2 is prime.
proof fn lemma_least_divisor(n: nat, e: nat) -> (d: nat)
    requires
        2 <= e < n,
        divides(e, n),
    ensures
        is_prime(d),
        divides(d, n),
        2 <= d <= e,
    decreases e,
{
    if is_prime(e) {
        e
    } else {
        let f = choose|f: nat| 2 <= f < e && #[trigger] divides(f, e);
        let a = e / f;
        let b = n / e;
        assert(e == f * a) by (nonlinear_arith)
            requires f > 0, e % f == 0, a == e / f;
        assert(n == e * b) by (nonlinear_arith)
            requires e > 0, n % e == 0, b == n / e;
        assert(n == f * (a * b)) by (nonlinear_arith)
            requires e == f * a, n == e * b;
        assert(n % f == 0) by (nonlinear_arith)
            requires n == f * (a * b), f > 0;
        lemma_least_divisor(n, f)
    }
}

/// The sieve's memory stays proportional to the primes produced: each pending
/// entry's stride is twice an odd prime below `lower` (one already produced),
/// and no two entries share a stride.
pub open spec fn one_entry_per_prime(m: Map<u64, u64>, lower: nat) -> bool {
    &&& forall|k: u64|
        #[trigger] m.contains_key(k) ==> m[k] % 2 == 0 && is_prime(m[k] as nat / 2) && 3 <= m[k] / 2
            < lower
    &&& forall|k1: u64, k2: u64|
        #[trigger] m.contains_key(k1) && #[trigger] m.contains_key(k2) && m[k1] == m[k2] ==> k1 == k2
}

/// Produces, in increasing order, the primes that do not exceed a bound.
pub struct PrimeIter {
    sieve_map: BTreeMap<u64, u64>,
    next_candidate: Option<u64>,
    max: u64,
}

impl PrimeIter {
    /// The largest value the sequence may reach.
    pub closed spec fn bound(&self) -> nat {
        self.max as nat
    }

    /// Every prime below this value has been produced already.
    pub closed spec fn lower(&self) -> nat {
        match self.next_candidate {
            Some(c) => c as nat,
            None => self.max as nat + 1,
        }
    }

    /// Every key is a proper odd multiple of half its stride, in `[c, max]`.
    closed spec fn entries_ok(m: Map<u64, u64>, c: nat, max: nat) -> bool {
        forall|k: u64|
            #[trigger] m.contains_key(k) ==> {
                &&& k % 2 == 1
                &&& c <= k <= max
                &&& m[k] % 2 == 0
                &&& 2 <= m[k] / 2 < k
                &&& k % (m[k] / 2) == 0
            }
    }

    /// Every odd multiple `n` of an odd prime `p < c`, with `p * p <= n`, that
    /// lies in `[c, max]`, is a key, or lies beyond a key of stride `2 * p`.
    closed spec fn covered(m: Map<u64, u64>, c: nat, max: nat) -> bool {
        forall|p: nat, n: nat|
            #![trigger is_prime(p), divides(p, n)]
            is_prime(p) && 3 <= p < c && divides(p, n) && n % 2 == 1 && p * p <= n && c <= n
                <= max ==> m.contains_key(n as u64) || exists|k: u64|
                #[trigger] m.contains_key(k) && k < n && m[k] == 2 * p
    }

    /// The pending multiples, each mapped to its stride.
    pub closed spec fn pending(&self) -> Map<u64, u64> {
        self.sieve_map@
    }

    /// The state is consistent with the primes produced so far.
    pub closed spec fn wf(&self) -> bool {
        &&& one_entry_per_prime(self.sieve_map@, self.lower())
        &&& match self.next_candidate {
            None => true,
            Some(c) => {
                &&& c <= self.max
                &&& (c == 2 ==> self.sieve_map@.dom().is_empty())
                &&& c != 2 ==> {
                    &&& c >= 3
                    &&& c % 2 == 1
                    &&& Self::entries_ok(self.sieve_map@, c as nat, self.max as nat)
                    &&& Self::covered(self.sieve_map@, c as nat, self.max as nat)
                }
            }
        }
    }
}

impl PrimeIter {
    /// The next prime, or `None` once every prime up to the bound has been produced.
    pub fn next(&mut self) -> (r: Option<u64>)
        requires
            old(self).wf(),
        ensures
            final(self).wf(),
            final(self).bound() == old(self).bound(),
            final(self).lower() <= final(self).bound() + 1,
            one_entry_per_prime(final(self).pending(), final(self).lower()),
            match r {
                Some(p) => {
                    &&& is_prime(p as nat)
                    &&& old(self).lower() <= p <= old(self).bound()
                    &&& final(self).lower() > p
                    &&& forall|q: nat|
                        old(self).lower() <= q < final(self).lower() && q != p ==> !is_prime(q)
                },
                None => {
                    &&& final(self).lower() == old(self).bound() + 1
                    &&& forall|q: nat| old(self).lower() <= q <= old(self).bound() ==> !is_prime(q)
                },
            },
    {
        let first = match self.next_candidate {
            None => return None,
            Some(c) => c,
        };
        if first == 2 {
            self.next_candidate = if self.max >= 3 { Some(3u64) } else { None };
            proof {
                assert(!is_prime(3 * 0 + 4)) by {
                    assert(divides(2, 4));
                }
            }
            return Some(2);
        }
        let ghost lower0 = self.lower();
        loop
            invariant
                self.wf(),
                self.max == old(self).max,
                lower0 == old(self).lower(),
                lower0 >= 3,
                lower0 <= self.lower(),
                vstd::laws_cmp::obeys_cmp::<u64>(),
                forall|q: nat| lower0 <= q < self.lower() ==> !is_prime(q),
            decreases self.max + 1 - self.lower(),
        {
            let c = match self.next_candidate {
                None => {
                    return None;
                },
                Some(c) => c,
            };
            let ghost m0 = self.sieve_map@;
            let max = self.max;
            self.next_candidate = if c <= max - 2 { Some(c + 2) } else { None };
            proof {
                if is_prime((c + 1) as nat) {
                    assert(divides(2, (c + 1) as nat));
                }
            }
            match self.sieve_map.remove(&c) {
                Some(stride) => {
                    let ghost q = (stride / 2) as nat;
                    proof {
                        assert(divides(q, c as nat));
                        assert(!is_prime(c as nat));
                    }
                    let ghost m1 = self.sieve_map@;
                    let placed = stride <= max && c <= max - stride;
                    if placed {
                        self.place_from(c + stride, stride);
                    }
                    proof {
                        let m2 = self.sieve_map@;
                        let c2 = (c + 2) as nat;
                        assert(m1 == m0.remove(c));
                        if self.next_candidate is Some {
                            assert forall|k: u64| #[trigger] m2.contains_key(k) implies {
                                &&& k % 2 == 1
                                &&& c2 <= k <= max
                                &&& m2[k] % 2 == 0
                                &&& 2 <= m2[k] / 2 < k
                                &&& k % (m2[k] / 2) == 0
                            } by {
                                if !m1.contains_key(k) {
                                    let start = (c + stride) as nat;
                                    vstd::arithmetic::div_mod::lemma_mod_add_multiples_vanish(
                                        (k - start) as int,
                                        stride as int,
                                    );
                                    lemma_step_multiple(c as nat, k as nat, q);
                                }
                            }
                            assert forall|p: nat, n: nat|
                                #![trigger is_prime(p), divides(p, n)]
                                is_prime(p) && 3 <= p < c2 && divides(p, n) && n % 2 == 1 && p * p
                                    <= n && c2 <= n <= max implies m2.contains_key(n as u64)
                                || exists|k: u64|
                                #[trigger] m2.contains_key(k) && k < n && m2[k] == 2 * p by {
                                assert(p != c);
                                assert(p != c + 1);
                                if !m0.contains_key(n as u64) {
                                    let k0 = choose|k: u64|
                                        #[trigger] m0.contains_key(k) && k < n && m0[k] == 2 * p;
                                    if k0 == c {
                                        lemma_odd_multiples(c as nat, n, p);
                                        let start = (c + stride) as nat;
                                        vstd::arithmetic::div_mod::lemma_mod_sub_multiples_vanish(
                                            (n - c) as int,
                                            stride as int,
                                        );
                                        assert(((n - start) as nat) % (stride as nat) == 0);
                                    } else {
                                        assert(m2.contains_key(k0) && k0 < n && m2[k0] == 2 * p);
                                    }
                                }
                            }
                        }
                    }
                },
                None => {
                    proof {
                        if !is_prime(c as nat) {
                            let d = lemma_prime_divisor(c as nat);
                            lemma_divisor_of_odd(d, c as nat);
                            assert(is_prime(d) && divides(d, c as nat));
                            assert(false);
                        }
                    }
                    let ghost m1 = self.sieve_map@;
                    let fits = c <= max / c;
                    if fits {
                        proof {
                            assert(c * c <= max && 2 * c <= c * c) by (nonlinear_arith)
                                requires c <= max / c, c >= 3;
                        }
                        self.place_from(c * c, 2 * c);
                    }
                    proof {
                        let m2 = self.sieve_map@;
                        let c2 = (c + 2) as nat;
                        let cc = (c * c) as nat;
                        assert(m1 =~= m0);
                        let t = ((c - 1) / 2) as nat;
                        assert(cc == 2 * (c * t) + c) by (nonlinear_arith)
                            requires c == 2 * t + 1, cc == c * c;
                        assert(cc % 2 == 1);
                        vstd::arithmetic::div_mod::lemma_mod_multiples_basic(c as int, c as int);
                        assert(cc % (c as nat) == 0);
                        assert(cc >= 3 * c) by (nonlinear_arith)
                            requires c >= 3, cc == c * c;
                        if !fits {
                            assert(cc > max) by (nonlinear_arith)
                                requires c > max / c, c > 0, cc == c * c;
                        }
                        if self.next_candidate is Some {
                            assert forall|k: u64| #[trigger] m2.contains_key(k) implies {
                                &&& k % 2 == 1
                                &&& c2 <= k <= max
                                &&& m2[k] % 2 == 0
                                &&& 2 <= m2[k] / 2 < k
                                &&& k % (m2[k] / 2) == 0
                            } by {
                                if !m1.contains_key(k) {
                                    lemma_step_multiple(cc, k as nat, c as nat);
                                }
                            }
                            assert forall|p: nat, n: nat|
                                #![trigger is_prime(p), divides(p, n)]
                                is_prime(p) && 3 <= p < c2 && divides(p, n) && n % 2 == 1 && p * p
                                    <= n && c2 <= n <= max implies m2.contains_key(n as u64)
                                || exists|k: u64|
                                #[trigger] m2.contains_key(k) && k < n && m2[k] == 2 * p by {
                                assert(p != c + 1);
                                if p == c {
                                    if n > cc {
                                        lemma_odd_multiples(cc, n, p);
                                    } else {
                                        vstd::arithmetic::div_mod::lemma_small_mod(0, 2 * p);
                                    }
                                    assert(((n - cc) as nat) % ((2 * c) as nat) == 0);
                                } else if !m0.contains_key(n as u64) {
                                    let k0 = choose|k: u64|
                                        #[trigger] m0.contains_key(k) && k < n && m0[k] == 2 * p;
                                    assert(m2.contains_key(k0) && k0 < n && m2[k0] == 2 * p);
                                }
                            }
                        }
                    }
                    return Some(c);
                },
            }
        }
    }

    /// Records `stride` in the sieve at its first free slot from `start`.
    fn place_from(&mut self, start: u64, stride: u64)
        requires
            stride > 0,
        ensures
            forall|k1: u64, k2: u64|
                #[trigger] final(self).sieve_map@.contains_key(k1) && !old(self).sieve_map@.contains_key(k1)
                    && #[trigger] final(self).sieve_map@.contains_key(k2) && !old(self).sieve_map@.contains_key(k2) ==> k1 == k2,
            final(self).max == old(self).max,
            final(self).next_candidate == old(self).next_candidate,
            forall|k: u64|
                #[trigger] old(self).sieve_map@.contains_key(k) ==> final(self).sieve_map@.contains_key(k)
                    && final(self).sieve_map@[k] == old(self).sieve_map@[k],
            forall|k: u64|
                #[trigger] final(self).sieve_map@.contains_key(k) && !old(self).sieve_map@.contains_key(k) ==> {
                    &&& final(self).sieve_map@[k] == stride
                    &&& start <= k <= old(self).max
                    &&& ((k - start) as nat) % (stride as nat) == 0
                },
            forall|n: nat|
                start <= n <= old(self).max && #[trigger] (((n - start) as nat) % (stride as nat)) == 0
                    ==> final(self).sieve_map@.contains_key(n as u64) || exists|k: u64|
                    #[trigger] final(self).sieve_map@.contains_key(k) && k < n && final(self).sieve_map@[k] == stride,
    {
        let max = self.max;
        place(&mut self.sieve_map, start, stride, max);
    }
}

/// Records `stride` at the first of `start`, `start + stride`, ... (up to
/// `max`) that is not yet a key; when all of them are keys, records nothing.
fn place(map: &mut BTreeMap<u64, u64>, start: u64, stride: u64, max: u64)
    requires
        stride > 0,
    ensures
        forall|k1: u64, k2: u64|
            #[trigger] final(map)@.contains_key(k1) && !old(map)@.contains_key(k1)
                && #[trigger] final(map)@.contains_key(k2) && !old(map)@.contains_key(k2) ==> k1 == k2,
        forall|k: u64|
            #[trigger] old(map)@.contains_key(k) ==> final(map)@.contains_key(k) && final(map)@[k]
                == old(map)@[k],
        forall|k: u64|
            #[trigger] final(map)@.contains_key(k) && !old(map)@.contains_key(k) ==> {
                &&& final(map)@[k] == stride
                &&& start <= k <= max
                &&& ((k - start) as nat) % (stride as nat) == 0
            },
        forall|n: nat|
            start <= n <= max && #[trigger] (((n - start) as nat) % (stride as nat)) == 0
                ==> final(map)@.contains_key(n as u64) || exists|k: u64|
                #[trigger] final(map)@.contains_key(k) && k < n && final(map)@[k] == stride,
{
    let ghost m0 = map@;
    proof {
        assert(vstd::laws_cmp::obeys_cmp::<u64>());
        vstd::arithmetic::div_mod::lemma_small_mod(0, stride as nat);
    }
    let mut n: u64 = start;
    while n <= max
        invariant
            start <= n,
            ((n - start) as nat) % (stride as nat) == 0,
            stride > 0,
            map@ == m0,
            old(map)@ == m0,
            vstd::laws_cmp::obeys_cmp::<u64>(),
            forall|m: nat|
                start <= m < n && #[trigger] (((m - start) as nat) % (stride as nat)) == 0
                    ==> m0.contains_key(m as u64),
        decreases max - n,
    {
        if !map.contains_key(&n) {
            map.insert(n, stride);
            proof {
                assert forall|m: nat|
                    start <= m <= max && #[trigger] (((m - start) as nat) % (stride as nat)) == 0
                        implies map@.contains_key(m as u64) || exists|k: u64|
                        #[trigger] map@.contains_key(k) && k < m && map@[k] == stride by {
                    if m > n {
                        assert(map@.contains_key(n) && n < m && map@[n] == stride);
                    }
                }
            }
            return;
        }
        if stride > max || n > max - stride {
            proof {
                assert forall|m: nat|
                    start <= m <= max && #[trigger] (((m - start) as nat) % (stride as nat)) == 0
                        implies map@.contains_key(m as u64) by {
                    if m > n {
                        lemma_multiples_apart((n - start) as nat, (m - start) as nat, stride as nat);
                    }
                }
            }
            return;
        }
        proof {
            assert forall|m: nat|
                start <= m < n + stride && #[trigger] (((m - start) as nat) % (stride as nat)) == 0
                    implies m0.contains_key(m as u64) by {
                if m > n {
                    lemma_multiples_apart((n - start) as nat, (m - start) as nat, stride as nat);
                }
            }
            assert((((n + stride - start) as nat) % (stride as nat)) == 0) by {
                vstd::arithmetic::div_mod::lemma_mod_add_multiples_vanish(
                    (n - start) as int,
                    stride as int,
                );
            }
        }
        n = n + stride;
    }
}

/// A fresh sequence of the primes that do not exceed `max`.
pub fn new(max: u64) -> (r: PrimeIter)
    ensures
        r.wf(),
        r.bound() == max,
        one_entry_per_prime(r.pending(), r.lower()),
        r.lower() == if max >= 2 { 2 } else { max as nat + 1 },
{
    let next_candidate = if max >= 2 { Some(2u64) } else { None };
    PrimeIter { sieve_map: BTreeMap::new(), next_candidate, max }
}

} // verus!
