use prime_tools::bignat::{BigInt, BigNat};
use prime_tools::miller_rabin::{
    is_probable_prime, is_probable_prime_bigint, is_probable_prime_with_bases,
    is_probable_prime_with_primes, miller_rabin_round, rounds_pass, small_primes, trial_division,
};

fn big(v: u64) -> BigNat {
    BigNat::from_u64(v)
}

#[test]
fn test_is_probable_prime_with_prime() {
    let prime = big(18446744073709551557_u64);
    assert!(is_probable_prime(&prime, 40));
}

#[test]
fn test_is_probable_prime_with_composite() {
    let composite = big(389111_u64 * 389111_u64);
    assert!(!is_probable_prime(&composite, 40));
}

#[test]
fn test_is_probable_prime_with_small_numbers() {
    assert!(!is_probable_prime(&big(0), 40));
    assert!(!is_probable_prime(&big(1), 40));
    assert!(is_probable_prime(&big(2), 40));
    assert!(is_probable_prime(&big(3), 40));
    assert!(!is_probable_prime(&big(4), 40));
}

#[test]
fn trial_division_agrees_below_ten_thousand_squared() {
    let primes = [9973u64, 10007, 99991, 1_000_003, 99_999_989];
    for p in primes {
        assert!(is_probable_prime(&big(p), 10), "{}", p);
    }
    let composites = [9999u64, 10001, 10007 * 9973, 99_999_999, 9973 * 9967];
    for c in composites {
        assert!(!is_probable_prime(&big(c), 10), "{}", c);
    }
}

#[test]
fn signed_variant_rejects_zero_and_negatives() {
    assert!(!is_probable_prime_bigint(&BigInt::from_i64(0), 40));
    assert!(!is_probable_prime_bigint(&BigInt::from_i64(-7), 40));
    assert!(!is_probable_prime_bigint(&BigInt::from_i64(i64::MIN), 40));
    assert!(!is_probable_prime_bigint(&BigInt::from_parts(true, big(13)), 40));
    assert!(is_probable_prime_bigint(&BigInt::from_i64(13), 40));
    assert!(!is_probable_prime_bigint(&BigInt::from_i64(15), 40));
}

#[test]
fn small_primes_are_the_primes_below_ten_thousand() {
    let p = small_primes();
    assert_eq!(p.len(), 1229);
    assert_eq!(&p[..5], &[2, 3, 5, 7, 11]);
    assert_eq!(p[p.len() - 1], 9973);
}

#[test]
fn miller_rabin_round_exact_values() {
    // 25 - 1 = 8 * 3; 7^3 = 18, 18^2 = 24 (mod 25): a strong liar.
    assert!(miller_rabin_round(&big(25), &big(7)));
    // 2^3 = 8, 8^2 = 14, 14^2 = 21 (mod 25): a witness.
    assert!(!miller_rabin_round(&big(25), &big(2)));
    // A prime passes for every base.
    for b in 2..100u64 {
        assert!(miller_rabin_round(&big(101), &big(b)));
    }
}

#[test]
fn fixed_bases_decide_beyond_trial_division() {
    // 10403 = 101 * 103 has a small factor: trial division rejects it.
    assert!(!is_probable_prime_with_bases(&big(10403), &vec![]));
    // 100160063 = 10007 * 10009 has no factor below 10,000.
    let w = big(100160063);
    assert!(is_probable_prime_with_bases(&w, &vec![]));
    assert!(!is_probable_prime_with_bases(&w, &vec![big(2)]));
    assert!(is_probable_prime_with_bases(&big(1_000_000_007), &vec![big(2), big(3), big(5)]));
}

#[test]
fn shared_prime_list() {
    let primes = small_primes();
    assert_eq!(trial_division(&big(9973), &primes), Some(true));
    assert_eq!(trial_division(&big(9975), &primes), Some(false));
    assert_eq!(trial_division(&big(1), &primes), Some(false));
    assert_eq!(trial_division(&big(10403), &primes), Some(false));
    assert_eq!(trial_division(&big(100160063), &primes), None);
    assert!(is_probable_prime_with_primes(&big(1_000_000_007), &primes, 20));
    assert!(!is_probable_prime_with_primes(&big(100160063), &primes, 20));
    assert!(rounds_pass(&big(100160063), &vec![]));
    assert!(!rounds_pass(&big(100160063), &vec![big(2)]));
}
