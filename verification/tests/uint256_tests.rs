use fvm_token::uint256::Uint256;
use fvm_token::Error;

fn dec(s: &[u8]) -> Uint256 {
    Uint256::from_decimal(s).unwrap()
}

#[test]
fn uint256_serde_test() {
    let u1 = dec(b"10000000");
    let bytes = u1.to_bytes_le();
    let back = Uint256::from_bytes_le(&bytes);
    assert_eq!(back, u1);

    let u1 = dec(b"1289472934337823047092830498");
    let bytes = u1.to_bytes_le();
    let back = Uint256::from_bytes_le(&bytes);
    assert_eq!(back, u1);
}

#[test]
fn uint256_ops_test() {
    let u1 = dec(b"2347290348029834222344344");
    let u2 = dec(b"4546347290348029834222344344");
    let u3 = u1.add(&u2);
    assert_eq!(u3, dec(b"4548694580696059668444688688"));

    let u3 = u2.sub(&u1).unwrap();
    assert_eq!(u3, dec(b"4544000000000000000000000000"));

    assert_eq!(u3 < u2, true);
    assert_eq!(u3 > u2, false);
}

#[test]
fn add_then_sub_returns_original() {
    let a = dec(b"99999999999999999999999999999");
    let b = dec(b"123456789123456789");
    let sum = a.add(&b);
    assert_eq!(sum.sub(&b).unwrap(), a);
    assert!(!(sum < a));
    assert!(!(sum < b));
}

#[test]
fn sub_underflow_fails() {
    let small = dec(b"5");
    let big = dec(b"6");
    assert_eq!(small.sub(&big), Err(Error::Underflow));
    assert_eq!(small.sub(&small).unwrap(), Uint256::zero());
}

#[test]
fn decimal_string_round_trip() {
    let x = dec(b"90530938209583091850915");
    assert_eq!(x.to_string(), "90530938209583091850915");
    assert_eq!(x.to_decimal(), b"90530938209583091850915".to_vec());
    assert_eq!(Uint256::zero().to_string(), "0");
    assert_eq!(Uint256::from_u64(255).to_string(), "255");
}

#[test]
fn from_decimal_rejects_bad_input() {
    assert!(Uint256::from_decimal(b"").is_none());
    assert!(Uint256::from_decimal(b"12a3").is_none());
    assert!(Uint256::from_decimal(b"-5").is_none());
    assert_eq!(Uint256::from_decimal(b"007").unwrap(), Uint256::from_u64(7));
}

#[test]
fn big_endian_bytes() {
    let x = dec(b"65536");
    assert_eq!(x.to_bytes_be(), vec![1u8, 0, 0]);
    assert_eq!(Uint256::zero().to_bytes_be(), vec![0u8]);
    assert_eq!(Uint256::from_bytes_be(&[0, 0, 1, 0, 0]), x);
    let y = Uint256::from_bytes_be(&x.to_bytes_be());
    assert_eq!(y, x);
}

#[test]
fn little_endian_bytes() {
    let x = dec(b"65536");
    assert_eq!(x.to_bytes_le(), vec![0u8, 0, 1]);
    assert_eq!(Uint256::zero().to_bytes_le(), vec![0u8]);
    assert_eq!(Uint256::from_bytes_le(&[0, 0, 1, 0, 0]), x);
}

#[test]
fn ordering_agrees_with_magnitude() {
    let a = dec(b"999999999999999999999999");
    let b = dec(b"1000000000000000000000000");
    assert!(a < b);
    assert!(b > a);
    assert!(a <= a && a >= a);
    assert_eq!(a.partial_cmp(&b), Some(std::cmp::Ordering::Less));
    assert_eq!(b.partial_cmp(&a), Some(std::cmp::Ordering::Greater));
    assert_eq!(a.partial_cmp(&a), Some(std::cmp::Ordering::Equal));
    assert!(a.lt(&b));
    assert!(!b.lt(&a));
}

#[test]
fn from_u64_matches_decimal() {
    assert_eq!(Uint256::from_u64(0), Uint256::zero());
    assert_eq!(Uint256::from_u64(18446744073709551615), dec(b"18446744073709551615"));
    assert!(Uint256::from_u64(0).is_zero());
    assert!(!Uint256::from_u64(1).is_zero());
}
