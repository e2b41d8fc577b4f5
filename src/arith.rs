//! Mathematical definitions shared by the whole library.

use vstd::prelude::*;

verus! {

/// `d` divides `n`.
pub open spec fn divides(d: nat, n: nat) -> bool {
    d > 0 && n % d == 0
}

/// `n` is a prime number: at least 2, and no divisor strictly between 1 and `n`.
pub open spec fn is_prime(n: nat) -> bool {
    n >= 2 && forall|d: nat| 2 <= d < n ==> !(#[trigger] divides(d, n))
}

/// Greatest common divisor, by Euclid's recurrence.
pub open spec fn gcd(a: nat, b: nat) -> nat
    decreases b,
{
    if b == 0 {
        a
    } else {
        gcd(b, a % b)
    }
}

/// The number of times 2 divides `n` (zero for `n == 0`).
pub open spec fn twos(n: nat) -> nat
    decreases n,
{
    if n > 0 && n % 2 == 0 {
        1 + twos(n / 2)
    } else {
        0
    }
}

/// Two multiples of `s` that differ are at least `s` apart.
pub proof fn lemma_multiples_apart(x: nat, y: nat, s: nat)
    requires
        s > 0,
        x % s == 0,
        y % s == 0,
        x < y,
    ensures
        y >= x + s,
{
    let a = x / s;
    let b = y / s;
    assert(x == s * a) by (nonlinear_arith)
        requires s > 0, x % s == 0, a == x / s;
    assert(y == s * b) by (nonlinear_arith)
        requires s > 0, y % s == 0, b == y / s;
    assert(y >= x + s) by (nonlinear_arith)
        requires x == s * a, y == s * b, x < y, s > 0;
}

/// Two odd multiples of `p` differ by a positive multiple of `2 * p`.
pub proof fn lemma_odd_multiples(a: nat, b: nat, p: nat)
    requires
        p > 0,
        a % p == 0,
        b % p == 0,
        a % 2 == 1,
        b % 2 == 1,
        a < b,
    ensures
        b - a >= 2 * p,
        ((b - a) as nat) % (2 * p) == 0,
{
    let x = a / p;
    let y = b / p;
    assert(a == p * x) by (nonlinear_arith)
        requires p > 0, a % p == 0, x == a / p;
    assert(b == p * y) by (nonlinear_arith)
        requires p > 0, b % p == 0, y == b / p;
    assert(x < y) by (nonlinear_arith)
        requires a == p * x, b == p * y, a < b, p > 0;
    if x % 2 == 0 {
        lemma_even_times(x as int, p as int);
        assert(p * x == x * p) by (nonlinear_arith);
    }
    if y % 2 == 0 {
        lemma_even_times(y as int, p as int);
        assert(p * y == y * p) by (nonlinear_arith);
    }
    let h = ((y - x) / 2) as nat;
    assert(y - x == 2 * h);
    assert(b - a == (2 * p) * h) by (nonlinear_arith)
        requires a == p * x, b == p * y, y - x == 2 * h;
    assert(h >= 1);
    assert(b - a >= 2 * p) by (nonlinear_arith)
        requires b - a == (2 * p) * h, h >= 1, p > 0;
    assert(((b - a) as nat) % (2 * p) == 0) by (nonlinear_arith)
        requires b - a == (2 * p) * h, p > 0;
}

/// Stepping from an odd multiple of `q` by multiples of `2 * q` keeps an odd multiple of `q`.
pub proof fn lemma_step_multiple(start: nat, k: nat, q: nat)
    requires
        q > 0,
        start % q == 0,
        start % 2 == 1,
        start <= k,
        ((k - start) as nat) % (2 * q) == 0,
    ensures
        k % q == 0,
        k % 2 == 1,
{
    let d = (k - start) as nat;
    let j = d / (2 * q);
    let x = start / q;
    vstd::arithmetic::div_mod::lemma_fundamental_div_mod(d as int, (2 * q) as int);
    assert(k - start == (2 * q) * j);
    assert(start == q * x) by (nonlinear_arith)
        requires q > 0, start % q == 0, x == start / q;
    assert(k == q * (x + 2 * j)) by (nonlinear_arith)
        requires k - start == (2 * q) * j, start == q * x;
    assert(k % q == 0) by (nonlinear_arith)
        requires k == q * (x + 2 * j), q > 0;
    assert(k == start + 2 * (q * j)) by (nonlinear_arith)
        requires k - start == (2 * q) * j;
}

/// A divisor of an odd number is odd.
pub proof fn lemma_divisor_of_odd(d: nat, n: nat)
    requires
        divides(d, n),
        n % 2 == 1,
    ensures
        d % 2 == 1,
{
    let x = n / d;
    assert(n == d * x) by (nonlinear_arith)
        requires d > 0, n % d == 0, x == n / d;
    if d % 2 == 0 {
        lemma_even_times(d as int, x as int);
    }
}

/// An even number times anything is even.
pub proof fn lemma_even_times(u: int, v: int)
    requires
        u % 2 == 0,
    ensures
        (u * v) % 2 == 0,
{
    let t = u / 2;
    assert(u == 2 * t);
    assert(u * v == (t * v) * 2) by (nonlinear_arith)
        requires u == 2 * t;
    vstd::arithmetic::div_mod::lemma_mod_multiples_basic(t * v, 2);
}

} // verus!
