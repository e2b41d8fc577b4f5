use prime_tools::bignat::BigNat;
use prime_tools::next_prime::{find, find_on_wheel, find_with_wheel, search_wheel};
use prime_tools::miller_rabin::is_probable_prime;
use prime_tools::wheel::{primorial, WheelSieve};

fn val(b: &BigNat) -> Option<u64> {
    let limbs = b.to_limbs();
    let mut v: u128 = 0;
    for (i, l) in limbs.iter().enumerate() {
        if *l != 0 {
            if i >= 2 {
                return None;
            }
            v += (*l as u128) << (32 * i);
        }
    }
    Some(v as u64)
}

fn take(sieve: &WheelSieve, start: u64, n: usize) -> Vec<u64> {
    let mut it = sieve.iter(&BigNat::from_u64(start));
    (0..n).map(|_| val(&it.next()).unwrap()).collect()
}

#[test]
fn primorial_calculates_correctly() {
    assert_eq!(primorial(1), Some(2));
    assert_eq!(primorial(2), Some(6));
    assert_eq!(primorial(3), Some(30));
    assert_eq!(primorial(4), Some(210));
}

#[test]
fn primorial_edges() {
    assert_eq!(primorial(0), Some(1));
    assert_eq!(primorial(15), Some(614889782588491410));
    assert_eq!(primorial(16), None);
}

#[test]
fn wheel_sieve_30_generates_correct_candidates() {
    let sieve = WheelSieve::new(3).unwrap();
    assert_eq!(take(&sieve, 0, 10), vec![1, 7, 11, 13, 17, 19, 23, 29, 31, 37]);
}

#[test]
fn wheel_sieve_120_generates_correct_candidates() {
    let sieve = WheelSieve::new(4).unwrap();
    assert_eq!(take(&sieve, 0, 10), vec![1, 11, 13, 17, 19, 23, 29, 31, 37, 41]);
}

#[test]
fn wheel_cursor_from_other_starts() {
    let sieve = WheelSieve::new(3).unwrap();
    assert_eq!(take(&sieve, 8, 4), vec![11, 13, 17, 19]);
    assert_eq!(take(&sieve, 29, 3), vec![29, 31, 37]);
    assert_eq!(take(&sieve, 30, 3), vec![31, 37, 41]);
    assert_eq!(take(&sieve, 1u64 << 40, 1), vec![(1u64 << 40) + 1]);
}

#[test]
fn wheel_cursor_increases_and_stays_above_start() {
    let sieve = WheelSieve::new(4).unwrap();
    for start in [0u64, 1, 100, 209, 210, 211, 12345] {
        let v = take(&sieve, start, 100);
        assert!(v[0] >= start);
        for w in v.windows(2) {
            assert!(w[0] < w[1]);
        }
        for x in v[0]..=v[99] {
            let coprime = x % 2 != 0 && x % 3 != 0 && x % 5 != 0 && x % 7 != 0;
            assert_eq!(coprime, v.contains(&x));
        }
    }
}

#[test]
fn wheel_order_zero_is_refused() {
    assert!(WheelSieve::new(0).is_none());
    assert!(WheelSieve::new(16).is_none());
}

#[test]
fn find_next_prime_returns_correct_value() {
    let n = BigNat::from_u64(9);
    let result = find(&n, |x| is_probable_prime(x, 40)).unwrap();
    assert_eq!(val(&result), Some(11));
}

#[test]
fn find_next_prime_after_seven() {
    let result = find(&BigNat::from_u64(7), |x| is_probable_prime(x, 40)).unwrap();
    assert_eq!(val(&result), Some(11));
    let result = find(&BigNat::from_u64(1000), |x| is_probable_prime(x, 40)).unwrap();
    assert_eq!(val(&result), Some(1009));
}

#[test]
fn find_is_deterministic_for_a_seed_free_predicate() {
    let trial = |x: &BigNat| {
        let v = val(x).unwrap();
        v >= 2 && (2..v).take_while(|d| d * d <= v).all(|d| v % d != 0)
    };
    for n in [0u64, 9, 100, 7919, 100000] {
        let a = val(&find(&BigNat::from_u64(n), trial).unwrap());
        let b = val(&find(&BigNat::from_u64(n), trial).unwrap());
        assert_eq!(a, b);
    }
}

#[test]
fn find_gives_up_after_the_budget() {
    let sieve = WheelSieve::new(4).unwrap();
    assert!(find_on_wheel(&sieve, &BigNat::from_u64(0), |_x: &BigNat| false, 50).is_none());
    let r = find_on_wheel(&sieve, &BigNat::from_u64(12), |x: &BigNat| val(x) == Some(19), 50);
    assert_eq!(val(&r.unwrap()), Some(19));
}

#[test]
fn find_below_seven_returns_the_wheel_primes() {
    let expected = [2u64, 2, 3, 5, 5, 7, 7, 11, 11, 11, 11, 13];
    for (n, e) in expected.iter().enumerate() {
        let r = find(&BigNat::from_u64(n as u64), |x| is_probable_prime(x, 40)).unwrap();
        assert_eq!(val(&r), Some(*e), "after {}", n);
    }
}

#[test]
fn find_with_a_shared_wheel() {
    let wheel = search_wheel().unwrap();
    for (n, e) in [(0u64, 2u64), (13, 17), (113, 127), (1_000_000, 1_000_003)] {
        let r = find_with_wheel(&wheel, &BigNat::from_u64(n), |x| is_probable_prime(x, 40)).unwrap();
        assert_eq!(val(&r), Some(e));
    }
}

#[test]
fn find_hands_candidates_in_order() {
    // A predicate accepting everything returns the first candidate: 1 after 0, 2 after 1.
    assert_eq!(val(&find(&BigNat::from_u64(0), |_x: &BigNat| true).unwrap()), Some(1));
    assert_eq!(val(&find(&BigNat::from_u64(1), |_x: &BigNat| true).unwrap()), Some(2));
    assert_eq!(val(&find(&BigNat::from_u64(7), |_x: &BigNat| true).unwrap()), Some(11));
    assert_eq!(val(&find(&BigNat::from_u64(10), |_x: &BigNat| true).unwrap()), Some(11));
}

#[test]
fn take_reports_consecutive_candidates() {
    let sieve = WheelSieve::new(2).unwrap();
    let mut it = sieve.iter(&BigNat::from_u64(3));
    let v: Vec<u64> = it.take(5).iter().map(|b| val(b).unwrap()).collect();
    assert_eq!(v, vec![5, 7, 11, 13, 17]);
    let w: Vec<u64> = it.take(2).iter().map(|b| val(b).unwrap()).collect();
    assert_eq!(w, vec![19, 23]);
    assert!(it.take(0).is_empty());
}

#[test]
fn order_one_wheel_does_not_move() {
    let sieve = WheelSieve::new(1).unwrap();
    let mut it = sieve.iter(&BigNat::from_u64(4));
    let v: Vec<u64> = it.take(3).iter().map(|b| val(b).unwrap()).collect();
    assert_eq!(v, vec![5, 5, 5]);
}
