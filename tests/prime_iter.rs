use prime_tools::prime_iter::new;

fn collect_all(max: u64) -> Vec<u64> {
    let mut it = new(max);
    let mut out = Vec::new();
    while let Some(p) = it.next() {
        out.push(p);
    }
    out
}

#[test]
fn test_prime_iterator_starting_values() {
    let mut iter = new(usize::MAX as u64);
    assert_eq!(iter.next(), Some(2));
    assert_eq!(iter.next(), Some(3));
    assert_eq!(iter.next(), Some(5));
    assert_eq!(iter.next(), Some(7));
    assert_eq!(iter.next(), Some(11));
}

#[test]
fn test_prime_iterator_i8() {
    let primes: Vec<i8> = collect_all(i8::MAX as u64).into_iter().map(|p| p as i8).collect();
    assert_eq!(
        primes,
        vec![
            2, 3, 5, 7, 11, 13, 17, 19, 23, 29, 31, 37, 41, 43, 47, 53, 59, 61, 67, 71, 73, 79,
            83, 89, 97, 101, 103, 107, 109, 113, 127
        ]
    );
}

#[test]
fn u8_sequence_ends_at_the_type_width() {
    let primes: Vec<u8> = collect_all(u8::MAX as u64).into_iter().map(|p| p as u8).collect();
    assert_eq!(primes.len(), 54);
    assert_eq!(primes[30], 127);
    assert_eq!(*primes.last().unwrap(), 251);
    let mut it = new(u8::MAX as u64);
    for _ in 0..54 {
        assert!(it.next().is_some());
    }
    assert_eq!(it.next(), None);
    assert_eq!(it.next(), None);
}

#[test]
fn tiny_bounds() {
    assert_eq!(collect_all(0), Vec::<u64>::new());
    assert_eq!(collect_all(1), Vec::<u64>::new());
    assert_eq!(collect_all(2), vec![2]);
    assert_eq!(collect_all(3), vec![2, 3]);
    assert_eq!(collect_all(30), vec![2, 3, 5, 7, 11, 13, 17, 19, 23, 29]);
}

#[test]
fn sieve_matches_trial_division() {
    let primes = collect_all(5000);
    let naive: Vec<u64> = (2..=5000u64).filter(|&n| (2..n).take_while(|d| d * d <= n).all(|d| n % d != 0)).collect();
    assert_eq!(primes, naive);
}
