//! A residue wheel: the numbers below a primorial that are coprime to it, and
//! the cyclic gaps between them. Walking the wheel from a start value yields,
//! in increasing order, exactly the numbers not divisible by any of the
//! wheel's primes.

use crate::arith::{divides, gcd, is_prime};
use crate::bignat::BigNat;
use crate::prime_iter;
use num_integer::Integer;
use vstd::prelude::*;

verus! {

/// `s` holds the first `s.len()` primes, in increasing order.
pub open spec fn first_primes(s: Seq<u64>) -> bool {
    &&& forall|i: int, j: int| 0 <= i < j < s.len() ==> s[i] < s[j]
    &&& forall|i: int| 0 <= i < s.len() ==> is_prime(#[trigger] s[i] as nat)
    &&& forall|q: nat|
        #![trigger is_prime(q)]
        is_prime(q) && s.len() > 0 && q < s.last() ==> s.contains(q as u64)
}

/// The product of the numbers in `s`.
pub open spec fn product(s: Seq<u64>) -> nat
    decreases s.len(),
{
    if s.len() == 0 {
        1
    } else {
        product(s.drop_last()) * s.last() as nat
    }
}

/// `x` is a residue of the wheel of the given size: below it and coprime to it.
pub open spec fn is_residue(x: nat, size: nat) -> bool {
    1 <= x < size && gcd(x, size) == 1
}

/// Relies on `num_integer::Integer::gcd` for `usize`: the greatest common divisor.
#[verifier::external_body]
fn gcd_of(a: usize, b: usize) -> (r: usize)
    ensures
        r == gcd(a as nat, b as nat),
{
    a.gcd(&b)
}

/// The product of the first `n` primes, or `None` when it exceeds `usize::MAX`.
pub fn primorial(n: usize) -> (r: Option<usize>)
    ensures
        r matches Some(v) ==> exists|s: Seq<u64>|
            s.len() == n && first_primes(s) && #[trigger] product(s) == v,
        r is None ==> exists|s: Seq<u64>|
            s.len() <= n && first_primes(s) && #[trigger] product(s) > usize::MAX,
{
    let mut primes = prime_iter::new(usize::MAX as u64);
    let mut acc: usize = 1;
    let mut i: usize = 0;
    let ghost mut found: Seq<u64> = Seq::empty();
    while i < n
        invariant
            primes.wf(),
            primes.bound() == usize::MAX,
            found.len() == i,
            i <= n,
            first_primes(found),
            acc == product(found),
            acc >= 1,
            found.len() > 0 ==> primes.lower() > found.last(),
            found.len() == 0 ==> primes.lower() == 2,
            forall|q: nat|
                #![trigger is_prime(q)]
                is_prime(q) && q < primes.lower() ==> found.contains(q as u64),
        decreases n - i,
    {
        let ghost l0 = primes.lower();
        let p = match primes.next() {
            Some(p) => p,
            None => {
                proof {
                    lemma_primes_outrun_product(found, acc as nat);
                    let q = choose|q: nat| #![trigger is_prime(q)] is_prime(q) && q <= usize::MAX && !found.contains(q as u64);
                    assert(q < primes.lower());
                }
                return None;
            },
        };
        let ghost f2 = found.push(p);
        proof {
            assert(f2.drop_last() =~= found);
            assert forall|q: nat|
                #![trigger is_prime(q)]
                is_prime(q) && q < f2.last() implies f2.contains(q as u64) by {
                let j = choose|j: int| 0 <= j < found.len() && found[j] == q as u64;
                assert(f2[j] == q as u64);
            }
            assert(first_primes(f2));
        }
        if p as usize > usize::MAX / acc {
            proof {
                assert(acc * p > usize::MAX) by (nonlinear_arith)
                    requires p > usize::MAX / acc, acc > 0;
                assert(product(f2) > usize::MAX);
            }
            return None;
        }
        proof {
            assert forall|q: nat|
                #![trigger is_prime(q)]
                is_prime(q) && q < primes.lower() implies f2.contains(q as u64) by {
                if q == p {
                    assert(f2[found.len() as int] == p);
                } else if q < l0 {
                    let j = choose|j: int| 0 <= j < found.len() && found[j] == q as u64;
                    assert(f2[j] == q as u64);
                }
            }
            assert(acc * p <= usize::MAX && acc * p >= 1) by (nonlinear_arith)
                requires p <= usize::MAX / acc, acc > 0, p >= 2;
            found = f2;
        }
        acc = acc * p as usize;
        i = i + 1;
    }
    Some(acc)
}

/// A product of primes is positive, and at least 2 when there is a factor.
proof fn lemma_product_of_primes(s: Seq<u64>)
    requires
        forall|i: int| 0 <= i < s.len() ==> is_prime(#[trigger] s[i] as nat),
    ensures
        product(s) >= 1,
        s.len() > 0 ==> product(s) >= 2,
        s.len() > 1 ==> product(s) >= 4,
    decreases s.len(),
{
    if s.len() > 0 {
        let rest = s.drop_last();
        assert forall|i: int| 0 <= i < rest.len() implies is_prime(#[trigger] rest[i] as nat) by {
            assert(rest[i] == s[i]);
        }
        lemma_product_of_primes(rest);
        assert(is_prime(s[s.len() - 1] as nat));
        assert(product(rest) * s.last() >= 2 * product(rest)) by (nonlinear_arith)
            requires product(rest) >= 1, s.last() >= 2;
    }
}

/// In a list of first primes, an entry at least the prime `p` that lies
/// above every earlier entry's bound `p` is `p` itself.
proof fn lemma_first_primes_entry(s: Seq<u64>, k: int, p: nat)
    requires
        first_primes(s),
        0 <= k < s.len(),
        is_prime(p),
        s[k] >= p,
        forall|j: int| 0 <= j < k ==> #[trigger] s[j] < p,
    ensures
        s[k] == p,
{
    if s[k] > p {
        assert(s[k] <= s.last()) by {
            if k < s.len() - 1 {
                assert(s[k] < s[s.len() - 1]);
            }
        }
        let j = choose|j: int| 0 <= j < s.len() && s[j] == p as u64;
        if j >= k {
            if j > k {
                assert(s[k] < s[j]);
            }
        }
    }
}

/// The first four primes are 2, 3, 5 and 7, so a list of at most four first
/// primes has a product of at most 210.
pub proof fn lemma_first_four_primes(s: Seq<u64>)
    requires
        first_primes(s),
        s.len() <= 4,
    ensures
        product(s) <= 210,
        s.len() == 4 ==> product(s) == 210,
{
    assert(is_prime(2));
    assert forall|d: nat| 2 <= d < 3 implies !#[trigger] divides(d, 3) by {}
    assert forall|d: nat| 2 <= d < 5 implies !#[trigger] divides(d, 5) by {
        if d == 2 {} else if d == 3 {} else {}
    }
    assert forall|d: nat| 2 <= d < 7 implies !#[trigger] divides(d, 7) by {
        if d == 2 {} else if d == 3 {} else if d == 4 {} else if d == 5 {} else {}
    }
    assert(divides(2, 4) && divides(2, 6));
    let ps: Seq<u64> = seq![2u64, 3, 5, 7];
    if s.len() > 0 {
        assert(is_prime(s[0] as nat));
        lemma_first_primes_entry(s, 0, 2);
    }
    if s.len() > 1 {
        assert(s[0] < s[1]);
        lemma_first_primes_entry(s, 1, 3);
    }
    if s.len() > 2 {
        assert(s[1] < s[2] && s[0] < s[1]);
        assert(is_prime(s[2] as nat));
        lemma_first_primes_entry(s, 2, 5);
    }
    if s.len() > 3 {
        assert(s[2] < s[3] && s[1] < s[2] && s[0] < s[1]);
        assert(is_prime(s[3] as nat));
        lemma_first_primes_entry(s, 3, 7);
    }
    assert(s =~= ps.subrange(0, s.len() as int));
    let t0 = ps.subrange(0, 0);
    let t1 = ps.subrange(0, 1);
    let t2 = ps.subrange(0, 2);
    let t3 = ps.subrange(0, 3);
    assert(t1.drop_last() =~= t0);
    assert(t2.drop_last() =~= t1);
    assert(t3.drop_last() =~= t2);
    let t4 = ps.subrange(0, 4);
    assert(t4.drop_last() =~= t3);
    assert(product(t0) == 1);
    assert(product(t1) == product(t0) * 2);
    assert(product(t2) == product(t1) * 3);
    assert(product(t3) == product(t2) * 5);
    assert(product(t4) == product(t3) * 7);
}

/// Every member of `s` divides its product.
proof fn lemma_product_divisible(s: Seq<u64>, j: int)
    requires
        0 <= j < s.len(),
        forall|i: int| 0 <= i < s.len() ==> #[trigger] s[i] > 0,
    ensures
        product(s) % (s[j] as nat) == 0,
    decreases s.len(),
{
    let d = s[j] as nat;
    let rest = s.drop_last();
    if j == s.len() - 1 {
        vstd::arithmetic::div_mod::lemma_mod_multiples_basic(product(rest) as int, d as int);
    } else {
        assert(rest[j] == s[j]);
        lemma_product_divisible(rest, j);
        let k = product(rest) / d;
        assert(product(rest) == d * k) by (nonlinear_arith)
            requires product(rest) % d == 0, k == product(rest) / d, d > 0;
        assert(product(s) == (k * s.last()) * d) by (nonlinear_arith)
            requires product(s) == product(rest) * s.last(), product(rest) == d * k;
        vstd::arithmetic::div_mod::lemma_mod_multiples_basic((k * s.last()) as int, d as int);
    }
}

/// Euclid: when the first primes have a product that fits in a `usize`, some
/// prime up to `usize::MAX` is missing from them.
proof fn lemma_primes_outrun_product(s: Seq<u64>, acc: nat)
    requires
        first_primes(s),
        acc == product(s),
        1 <= acc <= usize::MAX,
    ensures
        exists|q: nat| #![trigger is_prime(q)] is_prime(q) && q <= usize::MAX && !s.contains(q as u64),
{
    if forall|q: nat| #![trigger is_prime(q)] is_prime(q) && q <= usize::MAX ==> s.contains(q as u64) {
        assert(is_prime(2));
        let j2 = choose|j: int| 0 <= j < s.len() && s[j] == 2u64;
        assert forall|i: int| 0 <= i < s.len() implies #[trigger] s[i] > 0 by {
            assert(is_prime(s[i] as nat));
        }
        lemma_product_divisible(s, j2);
        // acc is even, so acc + 1 <= usize::MAX.
        assert(acc != usize::MAX);
        let e = acc + 1;
        let d: nat = if is_prime(e) { e } else { crate::prime_iter::lemma_prime_divisor(e) };
        assert(divides(d, e));
        let jd = choose|j: int| 0 <= j < s.len() && s[j] == d as u64;
        lemma_product_divisible(s, jd);
        let a = acc / d;
        let b = e / d;
        assert(acc == d * a) by (nonlinear_arith)
            requires acc % d == 0, a == acc / d, d > 0;
        assert(e == d * b) by (nonlinear_arith)
            requires e % d == 0, b == e / d, d > 0;
        assert(d * (b - a) == 1) by (nonlinear_arith)
            requires acc == d * a, e == d * b, e == acc + 1;
        assert(false) by (nonlinear_arith)
            requires d * (b - a) == 1, d >= 2;
    }
}

/// `x` falls on a spoke of the wheel of the given size: its remainder is a residue.
pub open spec fn on_wheel(x: nat, size: nat) -> bool {
    size > 0 && is_residue(x % size, size)
}

/// The gap from residue `a` to the next residue `b`, going round once if `b <= a`.
pub open spec fn cyclic_gap(a: nat, b: nat, size: nat) -> nat {
    ((size + b - a) as nat) % size
}

/// The wheel whose modulus is the product of the first few primes.
pub struct WheelSieve {
    size: usize,
    residues: Vec<usize>,
    diffs: Vec<usize>,
}

impl WheelSieve {
    /// The modulus.
    pub closed spec fn modulus(&self) -> nat {
        self.size as nat
    }

    /// The numbers in `[1, modulus)` coprime to the modulus.
    pub closed spec fn residues(&self) -> Seq<usize> {
        self.residues@
    }

    /// The gap from each residue to the next one, cyclically.
    pub closed spec fn gaps(&self) -> Seq<usize> {
        self.diffs@
    }

    /// The residues are exactly the numbers below the modulus coprime to it, in
    /// increasing order, and each gap leads to the following residue.
    pub open spec fn wf(&self) -> bool {
        let m = self.modulus();
        let r = self.residues();
        let g = self.gaps();
        &&& m >= 2
        &&& r.len() >= 1
        &&& forall|i: int, j: int| 0 <= i < j < r.len() ==> r[i] < r[j]
        &&& forall|i: int| 0 <= i < r.len() ==> is_residue(#[trigger] r[i] as nat, m)
        &&& forall|x: nat| #[trigger] is_residue(x, m) ==> r.contains(x as usize)
        &&& g.len() == r.len()
        &&& forall|i: int|
            0 <= i < r.len() ==> #[trigger] g[i] == cyclic_gap(
                r[i] as nat,
                r[(i + 1) % (r.len() as int)] as nat,
                m,
            )
    }

    /// The wheel of the first `order` primes; `None` when their product exceeds
    /// `usize::MAX`, or when `order` is zero (a wheel of modulus 1 has no residue).
    pub fn new(order: usize) -> (r: Option<WheelSieve>)
        ensures
            r matches Some(w) ==> w.wf() && exists|s: Seq<u64>|
                s.len() == order && first_primes(s) && #[trigger] product(s) == w.modulus(),
            order >= 2 && r is Some ==> r.unwrap().modulus() >= 4,
            r is None ==> order == 0 || exists|s: Seq<u64>|
                s.len() <= order && first_primes(s) && #[trigger] product(s) > usize::MAX,
    {
        let size = match primorial(order) {
            Some(v) => v,
            None => return None,
        };
        if size < 2 {
            proof {
                if order > 0 {
                    let s = choose|s: Seq<u64>|
                        s.len() == order && first_primes(s) && #[trigger] product(s) == size;
                    lemma_product_of_primes(s);
                }
            }
            return None;
        }
        proof {
            let s = choose|s: Seq<u64>|
                s.len() == order && first_primes(s) && #[trigger] product(s) == size;
            lemma_product_of_primes(s);
        }
        let residues = Self::coprime_residues(size);
        let diffs = Self::cyclic_gaps(size, &residues);
        Some(WheelSieve { size, residues, diffs })
    }

    fn coprime_residues(size: usize) -> (r: Vec<usize>)
        requires
            size >= 2,
        ensures
            r@.len() >= 1,
            forall|i: int, j: int| 0 <= i < j < r@.len() ==> r@[i] < r@[j],
            forall|i: int| 0 <= i < r@.len() ==> is_residue(#[trigger] r@[i] as nat, size as nat),
            forall|x: nat| #[trigger] is_residue(x, size as nat) ==> r@.contains(x as usize),
    {
        let mut r: Vec<usize> = Vec::new();
        let mut x: usize = 1;
        proof {
            reveal_with_fuel(gcd, 3);
            assert(gcd(1, size as nat) == 1) by {
                vstd::arithmetic::div_mod::lemma_small_mod(1, size as nat);
                assert(gcd(size as nat, 1) == gcd(1, 0));
            }
        }
        while x < size
            invariant
                1 <= x <= size,
                size >= 2,
                x > 1 ==> r@.len() >= 1,
                forall|i: int, j: int| 0 <= i < j < r@.len() ==> r@[i] < r@[j],
                forall|i: int| 0 <= i < r@.len() ==> #[trigger] r@[i] < x,
                forall|i: int| 0 <= i < r@.len() ==> is_residue(#[trigger] r@[i] as nat, size as nat),
                forall|y: nat| #[trigger] is_residue(y, size as nat) && y < x ==> r@.contains(y as usize),
                gcd(1, size as nat) == 1,
            decreases size - x,
        {
            let ghost r0 = r@;
            if gcd_of(x, size) == 1 {
                r.push(x);
                proof {
                    assert(r@[r@.len() - 1] == x);
                }
            }
            proof {
                assert forall|y: nat| #[trigger] is_residue(y, size as nat) && y < x + 1 implies r@.contains(y as usize) by {
                    if y == x {
                        assert(r@[r@.len() - 1] == x);
                    } else {
                        let j = choose|j: int| 0 <= j < r0.len() && r0[j] == y as usize;
                        assert(r@[j] == y as usize);
                    }
                }
            }
            x = x + 1;
        }
        r
    }

    fn cyclic_gaps(size: usize, residues: &Vec<usize>) -> (g: Vec<usize>)
        requires
            residues@.len() >= 1,
            forall|i: int| 0 <= i < residues@.len() ==> #[trigger] residues@[i] < size,
        ensures
            g@.len() == residues@.len(),
            forall|i: int|
                0 <= i < residues@.len() ==> #[trigger] g@[i] == cyclic_gap(
                    residues@[i] as nat,
                    residues@[(i + 1) % (residues@.len() as int)] as nat,
                    size as nat,
                ),
    {
        let n = residues.len();
        let mut g: Vec<usize> = Vec::new();
        let mut i: usize = 0;
        while i < n
            invariant
                n == residues@.len(),
                n >= 1,
                i <= n,
                g@.len() == i,
                forall|k: int| 0 <= k < n ==> #[trigger] residues@[k] < size,
                forall|k: int|
                    0 <= k < i ==> #[trigger] g@[k] == cyclic_gap(
                        residues@[k] as nat,
                        residues@[(k + 1) % n as int] as nat,
                        size as nat,
                    ),
            decreases n - i,
        {
            let j: usize = if i + 1 == n { 0 } else { i + 1 };
            let a = residues[i];
            let b = residues[j];
            let d: usize = if b > a {
                b - a
            } else if b == a {
                0
            } else {
                size - a + b
            };
            proof {
                assert(j as int == (i + 1) % n as int) by {
                    if i + 1 < n {
                        vstd::arithmetic::div_mod::lemma_small_mod((i + 1) as nat, n as nat);
                    } else {
                        vstd::arithmetic::div_mod::lemma_mod_self_0(n as int);
                    }
                }
                let v = (size + b - a) as nat;
                if b > a {
                    vstd::arithmetic::div_mod::lemma_mod_add_multiples_vanish((b - a) as int, size as int);
                    vstd::arithmetic::div_mod::lemma_small_mod((b - a) as nat, size as nat);
                } else if b == a {
                    vstd::arithmetic::div_mod::lemma_mod_self_0(size as int);
                } else {
                    vstd::arithmetic::div_mod::lemma_small_mod(v, size as nat);
                }
                assert(d == cyclic_gap(a as nat, b as nat, size as nat));
            }
            g.push(d);
            i = i + 1;
        }
        g
    }
}

/// A cursor on a wheel: yields, in increasing order, every number at least its
/// start value that falls on the wheel.
pub struct WheelSieveIter<'a> {
    sieve: &'a WheelSieve,
    index: usize,
    next_value: BigNat,
}

impl<'a> WheelSieveIter<'a> {
    /// The wheel walked.
    pub closed spec fn wheel(&self) -> WheelSieve {
        *self.sieve
    }

    /// The value the next call of `next` returns.
    pub closed spec fn peek(&self) -> nat {
        self.next_value@
    }

    /// The cursor stands on a spoke of a well-formed wheel.
    pub closed spec fn wf(&self) -> bool {
        &&& self.sieve.wf()
        &&& self.index < self.sieve.residues@.len()
        &&& self.next_value@ % (self.sieve.size as nat) == self.sieve.residues@[self.index as int]
    }

    /// Yields the current candidate and steps to the next one on the wheel.
    /// The sequence never ends.
    pub fn next(&mut self) -> (r: BigNat)
        requires
            old(self).wf(),
        ensures
            final(self).wf(),
            final(self).wheel() == old(self).wheel(),
            r@ == old(self).peek(),
            on_wheel(r@, old(self).wheel().modulus()),
            final(self).peek() >= r@,
            old(self).wheel().modulus() >= 3 ==> final(self).peek() > r@,
            old(self).wheel().modulus() < 3 ==> final(self).peek() == r@,
            forall|x: nat|
                r@ < x < final(self).peek() ==> !on_wheel(x, old(self).wheel().modulus()),
    {
        let w = self.sieve;
        let n = w.diffs.len();
        let gap = w.diffs[self.index];
        let current = self.next_value.clone_value();
        let next_value = self.next_value.plus(&BigNat::from_u64(gap as u64));
        let i0 = self.index;
        self.next_value = next_value;
        self.index = if self.index + 1 == n { 0 } else { self.index + 1 };
        proof {
            let m = w.size as nat;
            let r = w.residues@;
            assert(self.index as int == (i0 + 1) % n as int) by {
                if i0 + 1 < n {
                    vstd::arithmetic::div_mod::lemma_small_mod((i0 + 1) as nat, n as nat);
                } else {
                    vstd::arithmetic::div_mod::lemma_mod_self_0(n as int);
                }
            }
            lemma_gap_steps(*w, i0 as int, current@);
            if m >= 3 {
                lemma_two_residues(*w);
            } else {
                lemma_small_wheel_still(*w);
            }
            assert forall|x: nat| current@ < x < self.next_value@ implies !on_wheel(x, m) by {
                lemma_no_residue_between(*w, i0 as int, current@, x);
            }
        }
        current
    }
}

impl<'a> WheelSieveIter<'a> {
    /// The next `count` candidates, by `count` calls of `next`: they increase
    /// strictly (on a wheel of modulus at least 3), all fall on the wheel, the
    /// first is the cursor's current value, and no number on the wheel between
    /// them, or between the last and the cursor's new value, is left out.
    pub fn take(&mut self, count: usize) -> (r: Vec<BigNat>)
        requires
            old(self).wf(),
        ensures
            final(self).wf(),
            final(self).wheel() == old(self).wheel(),
            r@.len() == count,
            count > 0 ==> r@[0]@ == old(self).peek(),
            count == 0 ==> final(self).peek() == old(self).peek(),
            forall|i: int| 0 <= i < r@.len() ==> on_wheel((#[trigger] r@[i])@, old(self).wheel().modulus()),
            forall|i: int| 0 <= i < r@.len() ==> old(self).peek() <= (#[trigger] r@[i])@ < final(self).peek()
                || (old(self).wheel().modulus() < 3 && r@[i]@ == final(self).peek()),
            old(self).wheel().modulus() >= 3 ==> forall|i: int, j: int|
                0 <= i < j < r@.len() ==> (#[trigger] r@[i])@ < (#[trigger] r@[j])@,
            forall|x: nat|
                old(self).peek() <= x < final(self).peek() && on_wheel(x, old(self).wheel().modulus())
                    ==> exists|i: int| 0 <= i < r@.len() && (#[trigger] r@[i])@ == x,
    {
        let mut out: Vec<BigNat> = Vec::new();
        let ghost p0 = self.peek();
        let ghost m = self.wheel().modulus();
        let mut k: usize = 0;
        while k < count
            invariant
                self.wf(),
                self.wheel() == old(self).wheel(),
                m == old(self).wheel().modulus(),
                p0 == old(self).peek(),
                k <= count,
                out@.len() == k,
                k > 0 ==> out@[0]@ == p0,
                k == 0 ==> self.peek() == p0,
                p0 <= self.peek(),
                forall|i: int| 0 <= i < out@.len() ==> on_wheel((#[trigger] out@[i])@, m),
                forall|i: int| 0 <= i < out@.len() ==> p0 <= (#[trigger] out@[i])@ < self.peek()
                    || (m < 3 && out@[i]@ == self.peek()),
                m >= 3 ==> forall|i: int, j: int|
                    0 <= i < j < out@.len() ==> (#[trigger] out@[i])@ < (#[trigger] out@[j])@,
                forall|x: nat|
                    p0 <= x < self.peek() && on_wheel(x, m) ==> exists|i: int|
                        0 <= i < out@.len() && (#[trigger] out@[i])@ == x,
            decreases count - k,
        {
            let ghost o0 = out@;
            let c = self.next();
            out.push(c);
            proof {
                assert(out@[k as int] == c);
                assert forall|i: int| 0 <= i < k implies out@[i] == o0[i] by {}
                assert forall|x: nat| p0 <= x < self.peek() && on_wheel(x, m) implies exists|i: int|
                    0 <= i < out@.len() && (#[trigger] out@[i])@ == x by {
                    if x == c@ {
                        assert(out@[k as int]@ == x);
                    } else if x < c@ {
                        let i = choose|i: int| 0 <= i < o0.len() && (#[trigger] o0[i])@ == x;
                        assert(out@[i] == o0[i]);
                    }
                }
            }
            k = k + 1;
        }
        out
    }
}

/// A wheel of modulus 2 has one residue and a zero gap.
proof fn lemma_small_wheel_still(w: WheelSieve)
    requires
        w.wf(),
        w.size < 3,
    ensures
        forall|i: int| 0 <= i < w.residues@.len() ==> #[trigger] w.diffs@[i] == 0,
{
    let r = w.residues@;
    assert forall|i: int| 0 <= i < r.len() implies #[trigger] w.diffs@[i] == 0 by {
        assert(r[i] == 1);
        assert(r[0] == 1);
        if r.len() > 1 {
            if i == 0 {
                assert(r[0] < r[1]);
                assert(r[1] == 1);
            } else {
                assert(r[0] < r[i]);
            }
        }
        vstd::arithmetic::div_mod::lemma_mod_bound(i + 1, r.len() as int);
        let j = (i + 1) % (r.len() as int);
        assert(r[j] == 1);
        vstd::arithmetic::div_mod::lemma_mod_self_0(2);
    }
}

impl WheelSieve {
    /// A cursor that starts at the least number at least `start` that falls on the wheel.
    pub fn iter<'a>(&'a self, start: &BigNat) -> (r: WheelSieveIter<'a>)
        requires
            self.wf(),
        ensures
            r.wf(),
            r.wheel() == *self,
            r.peek() >= start@,
            on_wheel(r.peek(), self.modulus()),
            forall|x: nat| start@ <= x < r.peek() ==> !on_wheel(x, self.modulus()),
    {
        let m = BigNat::from_u64(self.size as u64);
        let rem = match start.rem(&m).to_u64() {
            Some(v) => v as usize,
            None => 0,
        };
        let ghost m_ = self.size as nat;
        assert(rem == start@ % m_);
        let n = self.residues.len();
        let mut index: usize = 0;
        while index < n && self.residues[index] < rem
            invariant
                index <= n,
                n == self.residues@.len(),
                forall|k: int| 0 <= k < index ==> #[trigger] self.residues@[k] < rem,
            decreases n - index,
        {
            index = index + 1;
        }
        let found = index < n;
        if !found {
            index = 0;
        }
        let target = self.residues[index];
        let offset: usize = if target >= rem {
            target - rem
        } else {
            self.size - rem + target
        };
        let next_value = start.plus(&BigNat::from_u64(offset as u64));
        proof {
            lemma_start_offset(*self, start@, rem as nat, index as int, found, offset as nat);
        }
        WheelSieveIter { sieve: self, index, next_value }
    }
}

/// `x % m == y` when `x == q * m + y` with `y < m`.
proof fn lemma_mod_of(x: nat, m: nat, q: nat, y: nat)
    requires
        m > 0,
        y < m,
        x == q * m + y,
    ensures
        x % m == y,
        x / m == q,
{
    vstd::arithmetic::div_mod::lemma_fundamental_div_mod_converse(x as int, m as int, q as int, y as int);
}

/// On a well-formed wheel, a residue between two residues that are adjacent
/// in the list is impossible, and so is one beyond the last or before the first.
proof fn lemma_between_residues(w: WheelSieve, i: int, y: nat)
    requires
        w.wf(),
        0 <= i < w.residues@.len(),
        is_residue(y, w.size as nat),
        y > w.residues@[i],
    ensures
        i + 1 < w.residues@.len(),
        y >= w.residues@[i + 1],
{
    let r = w.residues@;
    let k = choose|k: int| 0 <= k < r.len() && r[k] == y as usize;
    if k <= i {
        if k < i {
            assert(r[k] < r[i]);
        }
    }
    assert(k > i);
    if k > i + 1 {
        assert(r[i + 1] < r[k]);
    }
}

/// No residue lies below the first one.
proof fn lemma_below_first(w: WheelSieve, y: nat)
    requires
        w.wf(),
        is_residue(y, w.size as nat),
    ensures
        y >= w.residues@[0],
{
    let r = w.residues@;
    let k = choose|k: int| 0 <= k < r.len() && r[k] == y as usize;
    if k > 0 {
        assert(r[0] < r[k]);
    }
}

/// A wheel of modulus at least 3 has at least two residues, so every gap is positive.
proof fn lemma_two_residues(w: WheelSieve)
    requires
        w.wf(),
        w.size >= 3,
    ensures
        w.residues@.len() >= 2,
        forall|i: int| 0 <= i < w.residues@.len() ==> #[trigger] w.diffs@[i] > 0,
{
    let m = w.size as nat;
    let r = w.residues@;
    let n = r.len();
    reveal_with_fuel(gcd, 4);
    vstd::arithmetic::div_mod::lemma_small_mod((m - 1) as nat, m);
    vstd::arithmetic::div_mod::lemma_small_mod(1, (m - 1) as nat);
    vstd::arithmetic::div_mod::lemma_mod_self_0(1);
    assert(gcd((m - 1) as nat, m) == gcd(m, (m - 1) as nat));
    lemma_mod_of(m, (m - 1) as nat, 1, 1);
    assert(gcd(m, (m - 1) as nat) == gcd((m - 1) as nat, 1));
    assert(gcd((m - 1) as nat, 1) == gcd(1, 0));
    assert(is_residue((m - 1) as nat, m));
    vstd::arithmetic::div_mod::lemma_small_mod(1, m);
    assert(gcd(1, m) == gcd(m, 1));
    assert(gcd(m, 1) == gcd(1, 0));
    assert(is_residue(1, m));
    let k1 = choose|k: int| 0 <= k < n && r[k] == 1usize;
    let k2 = choose|k: int| 0 <= k < n && r[k] == (m - 1) as usize;
    assert(k1 != k2);
    assert forall|i: int| 0 <= i < n implies #[trigger] w.diffs@[i] > 0 by {
        let j = (i + 1) % (n as int);
        vstd::arithmetic::div_mod::lemma_mod_bound(i + 1, n as int);
        if i + 1 < n {
            vstd::arithmetic::div_mod::lemma_small_mod((i + 1) as nat, n as nat);
            assert(r[i] < r[j]);
            let d = (r[j] - r[i]) as nat;
            lemma_mod_of((m + r[j] - r[i]) as nat, m, 1, d);
        } else {
            vstd::arithmetic::div_mod::lemma_mod_self_0(n as int);
            assert(r[0] < r[i]);
            let d = (m + r[j] - r[i]) as nat;
            lemma_mod_of(d, m, 0, d);
        }
    }
}

/// Stepping by a gap leads from one residue's class to the next one's.
proof fn lemma_gap_steps(w: WheelSieve, i: int, v: nat)
    requires
        w.wf(),
        0 <= i < w.residues@.len(),
        v % (w.size as nat) == w.residues@[i],
    ensures
        ((v + w.diffs@[i]) as nat) % (w.size as nat) == w.residues@[(i + 1) % (w.residues@.len() as int)],
        on_wheel(v, w.size as nat),
{
    let m = w.size as nat;
    let r = w.residues@;
    let n = r.len();
    let j = (i + 1) % (n as int);
    vstd::arithmetic::div_mod::lemma_mod_bound(i + 1, n as int);
    let q = v / m;
    vstd::arithmetic::div_mod::lemma_fundamental_div_mod(v as int, m as int);
    let a = r[i] as nat;
    let b = r[j] as nat;
    if b > a {
        lemma_mod_of((m + b - a) as nat, m, 1, (b - a) as nat);
        lemma_mod_of((v + (b - a)) as nat, m, q, b);
    } else if b == a {
        lemma_mod_of((m + b - a) as nat, m, 1, 0);
    } else {
        lemma_mod_of((m + b - a) as nat, m, 0, (m + b - a) as nat);
        assert(v + (m + b - a) == (q + 1) * m + b) by (nonlinear_arith)
            requires v == m * q + a;
        lemma_mod_of((v + (m + b - a)) as nat, m, q + 1, b);
    }
}

/// Between a candidate and the next one there is no number on the wheel.
proof fn lemma_no_residue_between(w: WheelSieve, i: int, v: nat, x: nat)
    requires
        w.wf(),
        0 <= i < w.residues@.len(),
        v % (w.size as nat) == w.residues@[i],
        v < x < v + w.diffs@[i],
    ensures
        !on_wheel(x, w.size as nat),
{
    let m = w.size as nat;
    let r = w.residues@;
    let n = r.len();
    let j = (i + 1) % (n as int);
    vstd::arithmetic::div_mod::lemma_mod_bound(i + 1, n as int);
    let q = v / m;
    vstd::arithmetic::div_mod::lemma_fundamental_div_mod(v as int, m as int);
    assert(v == q * m + r[i]) by (nonlinear_arith)
        requires v == m * q + r[i];
    let a = r[i] as nat;
    let b = r[j] as nat;
    let t = (x - v) as nat;
    if i + 1 < n {
        vstd::arithmetic::div_mod::lemma_small_mod((i + 1) as nat, n as nat);
        assert(a < b);
        lemma_mod_of((m + b - a) as nat, m, 1, (b - a) as nat);
        lemma_mod_of(x, m, q, a + t);
        if on_wheel(x, m) {
            lemma_between_residues(w, i, a + t);
        }
    } else {
        vstd::arithmetic::div_mod::lemma_mod_self_0(n as int);
        if b == a {
            lemma_mod_of((m + b - a) as nat, m, 1, 0);
        } else {
            if b > a {
                assert(r[0] < r[i]);
            }
            lemma_mod_of((m + b - a) as nat, m, 0, (m + b - a) as nat);
            if a + t < m {
                lemma_mod_of(x, m, q, a + t);
                if on_wheel(x, m) {
                    lemma_between_residues(w, i, a + t);
                }
            } else {
                assert(x == (q + 1) * m + (a + t - m)) by (nonlinear_arith)
                    requires v == q * m + a, x == v + t, a + t >= m;
                lemma_mod_of(x, m, q + 1, (a + t - m) as nat);
                if on_wheel(x, m) {
                    lemma_below_first(w, (a + t - m) as nat);
                }
            }
        }
    }
}

/// The first candidate of a cursor is the least number at least `start` on the wheel.
proof fn lemma_start_offset(w: WheelSieve, start: nat, rem: nat, index: int, found: bool, offset: nat)
    requires
        w.wf(),
        rem == start % (w.size as nat),
        0 <= index < w.residues@.len(),
        found ==> w.residues@[index] >= rem,
        found ==> forall|k: int| 0 <= k < index ==> #[trigger] w.residues@[k] < rem,
        !found ==> index == 0 && forall|k: int| 0 <= k < w.residues@.len() ==> #[trigger] w.residues@[k] < rem,
        offset == if w.residues@[index] >= rem {
            (w.residues@[index] - rem) as nat
        } else {
            (w.size - rem + w.residues@[index]) as nat
        },
    ensures
        (start + offset) % (w.size as nat) == w.residues@[index],
        forall|x: nat| start <= x < start + offset ==> !on_wheel(x, w.size as nat),
{
    let m = w.size as nat;
    let r = w.residues@;
    let n = r.len();
    let q = start / m;
    vstd::arithmetic::div_mod::lemma_fundamental_div_mod(start as int, m as int);
    assert(start == q * m + rem) by (nonlinear_arith)
        requires start == m * q + rem;
    let target = r[index] as nat;
    if target >= rem {
        lemma_mod_of(start + offset, m, q, target);
    } else {
        assert(start + offset == (q + 1) * m + target) by (nonlinear_arith)
            requires start == q * m + rem, offset == m - rem + target;
        lemma_mod_of(start + offset, m, q + 1, target);
    }
    assert forall|x: nat| start <= x < start + offset implies !on_wheel(x, m) by {
        let t = (x - start) as nat;
        if rem + t < m {
            lemma_mod_of(x, m, q, rem + t);
            if on_wheel(x, m) {
                let y = rem + t;
                let k = choose|k: int| 0 <= k < n && r[k] == y as usize;
                if found {
                    if k >= index {
                        if k > index {
                            assert(r[index] < r[k]);
                        }
                    }
                    assert(r[k] < rem);
                }
            }
        } else {
            assert(x == (q + 1) * m + (rem + t - m)) by (nonlinear_arith)
                requires start == q * m + rem, x == start + t, rem + t >= m;
            lemma_mod_of(x, m, q + 1, (rem + t - m) as nat);
            if on_wheel(x, m) {
                lemma_below_first(w, (rem + t - m) as nat);
            }
        }
    }
}

} // verus!
