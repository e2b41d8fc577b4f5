use prime_tools::bignat::{BigInt, BigNat};

#[test]
fn limbs_round_trip() {
    let v = BigNat::from_limbs(vec![1, 2, 3]);
    assert_eq!(v.to_limbs(), vec![1, 2, 3]);
    assert_eq!(v.clone_value().to_limbs(), vec![1, 2, 3]);
    assert_eq!(BigNat::from_u64((1u64 << 32) + 7).to_limbs(), vec![7, 1]);
    assert_eq!(BigNat::from_u64(5).to_limbs(), vec![5, 0]);
}

#[test]
fn signed_parts() {
    let n = BigInt::from_i64(-42);
    assert!(n.is_negative());
    assert_eq!(n.magnitude().to_limbs(), vec![42, 0]);
    assert!(!BigInt::from_parts(true, BigNat::from_u64(0)).is_negative());
    assert!(!BigInt::from_i64(42).is_negative());
    assert_eq!(BigInt::from_i64(i64::MIN).magnitude().to_limbs(), vec![0, 1u32 << 31]);
}
