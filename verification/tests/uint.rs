use base58::arith::{div_ww, mul_add_ww};
use base58::uint::{Uint, RADIX};
use core::cmp::Ordering;

#[test]
fn test_mul_add_ww() {
    assert_eq!(mul_add_ww(2, 3, 4), (0, 10));
    // (2^64 - 1)^2 + (2^64 - 1) = 2^128 - 2^64, so the carry is 2^64 - 1.
    assert_eq!(mul_add_ww(u64::MAX, u64::MAX, u64::MAX), (u64::MAX, 0));
}

#[test]
fn test_div_ww() {
    assert_eq!(div_ww(0, 100, 7), (14, 2));
    // (1 << 64) / RADIX = 42 with remainder 352967383934707008.
    let (q, r) = div_ww(1, 0, RADIX);
    assert_eq!(q, 42);
    assert_eq!(r, 352967383934507008);
    assert_eq!((q as u128) * (RADIX as u128) + r as u128, 1u128 << 64);
}

#[test]
fn test_be_bytes_round_trip() {
    let bytes: Vec<u8> = (1u8..17).collect();
    let x = Uint::from_be_bytes(&bytes);
    assert_eq!(x.to_be_bytes(), bytes);
    assert!(!x.is_zero());
    assert!(Uint::new(4).is_zero());
}

#[test]
fn test_fma_and_overflow() {
    let mut x = Uint::new(2);
    let overflowed = x.fma(58, 7);
    assert!(!overflowed);
    let mut expected = vec![0u8; 16];
    expected[15] = 7;
    assert_eq!(x.to_be_bytes(), expected);

    // A one-word value of 2^64 - 1 overflows when doubled.
    let mut y = Uint::from_be_bytes(&vec![0xFF; 8]);
    let overflowed = y.fma(2, 1);
    assert!(overflowed);
}

#[test]
fn test_quo_radix() {
    let value = RADIX as u128 * 3 + 5;
    let bytes = value.to_be_bytes().to_vec();
    let mut x = Uint::from_be_bytes(&bytes);
    let rem = x.quo_radix();
    assert_eq!(rem, 5);
    let mut quotient_bytes = vec![0u8; 16];
    quotient_bytes[15] = 3;
    assert_eq!(x.to_be_bytes(), quotient_bytes);
    let rem = x.quo_radix();
    assert_eq!(rem, 3);
    assert!(x.is_zero());
}

#[test]
fn test_cmp() {
    let mut lo = vec![0u8; 16];
    lo[15] = 9;
    let mut hi = vec![0u8; 16];
    hi[7] = 1;
    let a = Uint::from_be_bytes(&lo);
    let b = Uint::from_be_bytes(&hi);
    assert_eq!(a.cmp(&b), Ordering::Less);
    assert_eq!(b.cmp(&a), Ordering::Greater);
    assert_eq!(a.cmp(&Uint::from_be_bytes(&lo)), Ordering::Equal);
}
