//! The search for the next prime after a number: try 2, 3, 5 and 7, then walk
//! the wheel of modulus 210, and return the first candidate a primality
//! predicate accepts.

use crate::bignat::BigNat;
use crate::arith::gcd;
use crate::wheel::{first_primes, lemma_first_four_primes, on_wheel, product, WheelSieve};
use vstd::prelude::*;

verus! {

/// The number of primes the search's wheel is made of (2 * 3 * 5 * 7 = 210).
pub const WHEEL_PRIME_COUNT: usize = 4;

/// `r` is the first number after `n` on the wheel of modulus `m` that the
/// predicate accepts: every number on the wheel strictly between `n` and `r`
/// was handed to the predicate and rejected.
pub open spec fn first_accepted<F: Fn(&BigNat) -> bool>(m: nat, n: nat, pred: F, r: BigNat) -> bool {
    &&& r@ > n
    &&& on_wheel(r@, m)
    &&& pred.ensures((&r,), true)
    &&& forall|x: nat|
        #![trigger on_wheel(x, m)]
        n < x < r@ && on_wheel(x, m) ==> exists|c: BigNat| c@ == x && pred.ensures((&c,), false)
}

/// `cs` are the first `cs.len()` numbers after `n` on the wheel of modulus
/// `m`, in increasing order, and the predicate rejected each of them.
pub open spec fn all_rejected<F: Fn(&BigNat) -> bool>(m: nat, n: nat, pred: F, cs: Seq<BigNat>) -> bool {
    &&& forall|i: int, j: int| 0 <= i < j < cs.len() ==> cs[i]@ < cs[j]@
    &&& forall|i: int|
        0 <= i < cs.len() ==> n < (#[trigger] cs[i])@ && on_wheel(cs[i]@, m) && pred.ensures(
            (&cs[i],),
            false,
        )
    &&& forall|x: nat|
        #![trigger on_wheel(x, m)]
        cs.len() > 0 && n < x <= cs.last()@ && on_wheel(x, m) ==> exists|i: int|
            0 <= i < cs.len() && (#[trigger] cs[i])@ == x
}

/// The predicate's answer depends on the value it is given alone.
pub open spec fn decides_by_value<F: Fn(&BigNat) -> bool>(pred: F) -> bool {
    forall|c1: BigNat, c2: BigNat, b1: bool, b2: bool|
        c1@ == c2@ && pred.ensures((&c1,), b1) && pred.ensures((&c2,), b2) ==> b1 == b2
}

/// Walks `wheel` from `n + 1` and returns the first candidate that `is_prime`
/// accepts, giving up (`None`) after `max_candidates` rejected candidates.
/// (A wheel of modulus 2 does not move, so the modulus must be at least 3.)
pub fn find_on_wheel<F: Fn(&BigNat) -> bool>(
    wheel: &WheelSieve,
    n: &BigNat,
    is_prime: F,
    max_candidates: usize,
) -> (r: Option<BigNat>)
    requires
        wheel.wf(),
        wheel.modulus() >= 3,
        forall|c: BigNat| is_prime.requires((&c,)),
    ensures
        r matches Some(p) ==> first_accepted(wheel.modulus(), n@, is_prime, p),
        r is None ==> exists|cs: Seq<BigNat>|
            cs.len() == max_candidates && #[trigger] all_rejected(wheel.modulus(), n@, is_prime, cs),
{
    let start = n.plus(&BigNat::from_u64(1));
    let mut it = wheel.iter(&start);
    let mut count: usize = 0;
    let ghost mut cs: Seq<BigNat> = Seq::empty();
    let ghost m = wheel.modulus();
    while count < max_candidates
        invariant
            cs.len() == count,
            count <= max_candidates,
            all_rejected(m, n@, is_prime, cs),
            cs.len() > 0 ==> cs.last()@ < it.peek(),
            it.wf(),
            it.wheel() == *wheel,
            it.peek() > n@,
            wheel.wf(),
            m == wheel.modulus(),
            m >= 3,
            forall|c: BigNat| is_prime.requires((&c,)),
            forall|x: nat|
                #![trigger on_wheel(x, m)]
                n@ < x < it.peek() && on_wheel(x, m) ==> exists|i: int|
                    0 <= i < cs.len() && (#[trigger] cs[i])@ == x,
        decreases max_candidates - count,
    {
        let c = it.next();
        if is_prime(&c) {
            proof {
                assert forall|x: nat|
                    #![trigger on_wheel(x, m)]
                    n@ < x < c@ && on_wheel(x, m) implies exists|d: BigNat|
                        d@ == x && is_prime.ensures((&d,), false) by {
                    let i = choose|i: int| 0 <= i < cs.len() && (#[trigger] cs[i])@ == x;
                    assert(cs[i]@ == x && is_prime.ensures((&cs[i],), false));
                }
            }
            return Some(c);
        }
        proof {
            let cs2 = cs.push(c);
            assert forall|i: int| 0 <= i < cs2.len() implies n@ < (#[trigger] cs2[i])@ && on_wheel(
                cs2[i]@,
                m,
            ) && is_prime.ensures((&cs2[i],), false) by {
                if i < cs.len() {
                    assert(cs2[i] == cs[i]);
                }
            }
            assert forall|i: int, j: int| 0 <= i < j < cs2.len() implies cs2[i]@ < cs2[j]@ by {
                if j < cs.len() {
                    assert(cs2[i] == cs[i] && cs2[j] == cs[j]);
                } else {
                    assert(cs2[i] == cs[i]);
                    if i < cs.len() - 1 {
                        assert(cs[i]@ < cs.last()@);
                    }
                }
            }
            assert forall|x: nat|
                #![trigger on_wheel(x, m)]
                n@ < x < it.peek() && on_wheel(x, m) implies exists|i: int|
                    0 <= i < cs2.len() && (#[trigger] cs2[i])@ == x by {
                if x == c@ {
                    assert(cs2[cs.len() as int] == c);
                } else {
                    assert(x < c@);
                    let i = choose|i: int| 0 <= i < cs.len() && (#[trigger] cs[i])@ == x;
                    assert(cs2[i] == cs[i]);
                }
            }
            assert(cs2.last() == c);
            cs = cs2;
        }
        count = count + 1;
    }
    None
}

/// The modulus of the search's wheel, `2 * 3 * 5 * 7`.
pub const WHEEL_MODULUS: u64 = 210;

/// The numbers the search hands to the predicate: those on the wheel of
/// modulus 210 (1 and the numbers not divisible by 2, 3, 5 or 7), and the
/// wheel's own primes 2, 3, 5 and 7.
pub open spec fn is_candidate(x: nat) -> bool {
    on_wheel(x, WHEEL_MODULUS as nat) || x == 2 || x == 3 || x == 5 || x == 7
}

/// The predicate was handed a number of value `x` and rejected it.
pub open spec fn rejected<F: Fn(&BigNat) -> bool>(pred: F, x: nat) -> bool {
    exists|c: BigNat| c@ == x && pred.ensures((&c,), false)
}

/// `r` is the first candidate after `n` that the predicate accepts: every
/// candidate strictly between `n` and `r` was handed to it and rejected. With a
/// predicate that decides primality, `r` is the smallest prime above `n`.
pub open spec fn next_accepted<F: Fn(&BigNat) -> bool>(n: nat, pred: F, r: BigNat) -> bool {
    &&& r@ > n
    &&& is_candidate(r@)
    &&& pred.ensures((&r,), true)
    &&& forall|x: nat| #![trigger is_candidate(x)] n < x < r@ && is_candidate(x) ==> rejected(pred, x)
}

/// What a search that gave up has seen: every candidate after `n` up to 7 was
/// rejected, and so were the first `usize::MAX` numbers on the wheel after
/// `max(n, 7)`.
pub open spec fn gave_up<F: Fn(&BigNat) -> bool>(n: nat, pred: F) -> bool {
    &&& forall|x: nat| #![trigger is_candidate(x)] n < x <= 7 && is_candidate(x) ==> rejected(pred, x)
    &&& exists|cs: Seq<BigNat>|
        cs.len() == usize::MAX && #[trigger] all_rejected(WHEEL_MODULUS as nat, past_seven(n), pred, cs)
}

/// `max(n, 7)`.
pub open spec fn past_seven(n: nat) -> nat {
    if n < 7 {
        7
    } else {
        n
    }
}

/// The numbers at most 7 that are candidates are 1, 2, 3, 5 and 7.
proof fn lemma_small_candidates(x: nat)
    requires
        x <= 7,
    ensures
        is_candidate(x) <==> (x == 1 || x == 2 || x == 3 || x == 5 || x == 7),
{
    reveal_with_fuel(gcd, 5);
    if x == 0 {
        assert(!on_wheel(0nat, 210));
    } else if x == 4 {
        assert(4nat % 210 == 4);
        assert(gcd(4nat, 210) == 2);
    } else if x == 6 {
        assert(6nat % 210 == 6);
        assert(gcd(6nat, 210) == 6);
    } else if x == 1 {
        assert(1nat % 210 == 1);
        assert(gcd(1nat, 210) == 1);
    }
}

/// The search on a prebuilt wheel of modulus 210: hands 1, 2, 3, 5 and 7 (those
/// above `n`) to `is_prime`, then the numbers on the wheel after `max(n, 7)`,
/// in increasing order, and returns the first one accepted. `None` only when
/// the predicate has rejected `usize::MAX` numbers of the wheel in a row.
pub fn find_with_wheel<F: Fn(&BigNat) -> bool>(wheel: &WheelSieve, n: &BigNat, is_prime: F) -> (r: Option<BigNat>)
    requires
        wheel.wf(),
        wheel.modulus() == WHEEL_MODULUS,
        forall|c: BigNat| is_prime.requires((&c,)),
    ensures
        r matches Some(p) ==> next_accepted(n@, is_prime, p),
        r is None ==> gave_up(n@, is_prime),
{
    let small: Vec<u64> = vec![1, 2, 3, 5, 7];
    let mut i: usize = 0;
    while i < small.len()
        invariant
            small@ == seq![1u64, 2, 3, 5, 7],
            i <= 5,
            forall|c: BigNat| is_prime.requires((&c,)),
            forall|x: nat|
                #![trigger is_candidate(x)]
                n@ < x && (i < 5 ==> x < small@[i as int]) && x <= 7 && is_candidate(x) ==> rejected(is_prime, x),
        decreases 5 - i,
    {
        let c = BigNat::from_u64(small[i]);
        if !c.le(n) {
            if is_prime(&c) {
                proof {
                    assert forall|x: nat| #![trigger is_candidate(x)] n@ < x < c@ && is_candidate(x) implies rejected(is_prime, x) by {}
                    lemma_small_candidates(c@);
                }
                return Some(c);
            }
        }
        proof {
            assert forall|x: nat|
                #![trigger is_candidate(x)]
                n@ < x && (i + 1 < 5 ==> x < small@[i + 1]) && x <= 7 && is_candidate(x) implies rejected(is_prime, x) by {
                lemma_small_candidates(x);
                if x == c@ {
                    assert(c@ == x && is_prime.ensures((&c,), false));
                }
            }
        }
        i = i + 1;
    }
    let seven = BigNat::from_u64(7);
    let start = if n.le(&seven) { seven } else { n.clone_value() };
    let ghost s = past_seven(n@);
    assert(start@ == s);
    let r = find_on_wheel(wheel, &start, is_prime, usize::MAX);
    proof {
        if r is Some {
            let p = r.unwrap();
            assert forall|x: nat| #![trigger is_candidate(x)] n@ < x < p@ && is_candidate(x) implies rejected(is_prime, x) by {
                if x > 7 {
                    assert(on_wheel(x, WHEEL_MODULUS as nat));
                }
            }
            if p@ <= 7 {
                assert(false);
            }
        }
    }
    r
}

/// The smallest candidate after `n` (see `is_candidate`) that `is_prime`
/// accepts; with a predicate that decides primality, the smallest prime above
/// `n`. `None` only when the predicate has rejected `usize::MAX` numbers of the
/// wheel in a row.
pub fn find<F: Fn(&BigNat) -> bool>(n: &BigNat, is_prime: F) -> (r: Option<BigNat>)
    requires
        forall|c: BigNat| is_prime.requires((&c,)),
    ensures
        r matches Some(p) ==> next_accepted(n@, is_prime, p),
        r is None ==> gave_up(n@, is_prime),
{
    let wheel = match search_wheel() {
        Some(w) => w,
        None => return None,
    };
    find_with_wheel(&wheel, n, is_prime)
}

/// The wheel of the first four primes, modulus 210.
pub fn search_wheel() -> (r: Option<WheelSieve>)
    ensures
        r matches Some(w) && w.wf() && w.modulus() == WHEEL_MODULUS,
{
    let wheel = match WheelSieve::new(WHEEL_PRIME_COUNT) {
        Some(w) => w,
        None => {
            proof {
                let s = choose|s: Seq<u64>|
                    s.len() <= WHEEL_PRIME_COUNT && first_primes(s) && #[trigger] product(s) > usize::MAX;
                lemma_first_four_primes(s);
            }
            return None;
        },
    };
    proof {
        let s = choose|s: Seq<u64>|
            s.len() == WHEEL_PRIME_COUNT && first_primes(s) && #[trigger] product(s) == wheel.modulus();
        lemma_first_four_primes(s);
    }
    Some(wheel)
}

/// With a predicate that answers by value alone, the search is a function of
/// `n`: two results that meet its contract are equal, and a search that gave
/// up saw none of the numbers another search may accept.
pub proof fn lemma_find_deterministic<F: Fn(&BigNat) -> bool>(n: nat, pred: F, r1: BigNat, r2: BigNat)
    requires
        decides_by_value(pred),
        next_accepted(n, pred, r1),
        next_accepted(n, pred, r2),
    ensures
        r1@ == r2@,
{
    if r1@ < r2@ {
        assert(is_candidate(r1@));
        let c = choose|c: BigNat| c@ == r1@ && pred.ensures((&c,), false);
        assert(pred.ensures((&r1,), true));
    } else if r2@ < r1@ {
        assert(is_candidate(r2@));
        let c = choose|c: BigNat| c@ == r2@ && pred.ensures((&c,), false);
        assert(pred.ensures((&r2,), true));
    }
}

/// With a predicate that answers by value alone, a search that gave up and a
/// search that found `r` agree: `r` lies beyond every number the first one
/// rejected, so neither result is possible below `usize::MAX` wheel numbers.
pub proof fn lemma_gave_up_only_beyond<F: Fn(&BigNat) -> bool>(n: nat, pred: F, r: BigNat, cs: Seq<BigNat>)
    requires
        decides_by_value(pred),
        next_accepted(n, pred, r),
        cs.len() == usize::MAX,
        forall|x: nat| #![trigger is_candidate(x)] n < x <= 7 && is_candidate(x) ==> rejected(pred, x),
        all_rejected(WHEEL_MODULUS as nat, past_seven(n), pred, cs),
    ensures
        r@ > cs.last()@,
{
    assert(pred.ensures((&r,), true));
    if r@ <= 7 {
        assert(is_candidate(r@));
        let c = choose|c: BigNat| c@ == r@ && pred.ensures((&c,), false);
    } else if r@ <= cs.last()@ {
        assert(on_wheel(r@, WHEEL_MODULUS as nat));
        let i = choose|i: int| 0 <= i < cs.len() && (#[trigger] cs[i])@ == r@;
        assert(pred.ensures((&cs[i],), false));
    }
}

} // verus!
