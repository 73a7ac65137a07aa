use core::str::FromStr;

use base58::{DecodeError, String16, String32, String64, ToBase58};

#[test]
fn test_from_str() {
    let str = String16::from_str("abcd").unwrap();
    assert_eq!(str.len(), 22);
    assert_eq!(str.as_str(), "111111111111111111abcd");

    assert_eq!(str, String16::from_str(str.as_str()).unwrap());
}

#[test]
fn test_round_trip_16() {
    let input: Vec<u8> = (0u8..16).collect();
    let s = String16::encode(&input);
    assert_eq!(s.len(), 22);
    let back = String16::decode(s.as_str()).unwrap();
    assert_eq!(back, input);
}

#[test]
fn test_round_trip_32() {
    let input: Vec<u8> = (100u8..132).collect();
    let s = String32::encode(&input);
    assert_eq!(s.as_str().len(), 44);
    let back = String32::decode(s.as_str()).unwrap();
    assert_eq!(back, input);
}

#[test]
fn test_round_trip_64() {
    let input: Vec<u8> = (0u8..64).map(|b| b.wrapping_mul(37).wrapping_add(5)).collect();
    let s = String64::encode(&input);
    assert_eq!(s.as_str().len(), 88);
    let back = String64::decode(s.as_str()).unwrap();
    assert_eq!(back, input);
}

#[test]
fn test_max_value_round_trip() {
    let input = vec![0xFFu8; 16];
    let s = String16::encode(&input);
    assert_eq!(s.as_str().len(), 22);
    assert_eq!(String16::decode(s.as_str()).unwrap(), input);

    let input = vec![0xFFu8; 32];
    let s = String32::encode(&input);
    assert_eq!(s.as_str().len(), 44);
    assert_eq!(String32::decode(s.as_str()).unwrap(), input);

    let input = vec![0xFFu8; 64];
    let s = String64::encode(&input);
    assert_eq!(s.as_str().len(), 88);
    assert_eq!(String64::decode(s.as_str()).unwrap(), input);
}

#[test]
fn test_encode_zero_is_all_ones() {
    let s = String16::encode(&vec![0u8; 16]);
    assert_eq!(s.as_str(), "1111111111111111111111");
    let s = String32::encode(&vec![0u8; 32]);
    assert_eq!(s.as_str(), "1".repeat(44).as_str());
    let s = String64::encode(&vec![0u8; 64]);
    assert_eq!(s.as_str(), "1".repeat(88).as_str());
}

#[test]
fn test_decode_empty() {
    assert_eq!(String16::decode("").unwrap(), vec![0u8; 16]);
    assert_eq!(String32::decode("").unwrap(), vec![0u8; 32]);
    assert_eq!(String64::decode("").unwrap(), vec![0u8; 64]);
}

#[test]
fn test_rejected_characters() {
    assert!(matches!(String16::decode("0"), Err(DecodeError::BadInput)));
    assert!(matches!(String16::decode("O"), Err(DecodeError::BadInput)));
    assert!(matches!(String16::decode("I"), Err(DecodeError::BadInput)));
    assert!(matches!(String16::decode("l"), Err(DecodeError::BadInput)));
    assert!(matches!(String16::decode("11O11"), Err(DecodeError::BadInput)));
    assert!(matches!(String16::decode("caf\u{00e9}"), Err(DecodeError::BadInput)));
    assert!(matches!(String32::decode("ab cd"), Err(DecodeError::BadInput)));
}

#[test]
fn test_overflow_detected() {
    let text = "z".repeat(23);
    assert!(matches!(String16::decode(text.as_str()), Err(DecodeError::BadInput)));
    let text = "z".repeat(45);
    assert!(matches!(String32::decode(text.as_str()), Err(DecodeError::BadInput)));
    let text = "z".repeat(89);
    assert!(matches!(String64::decode(text.as_str()), Err(DecodeError::BadInput)));
}

#[test]
fn test_parse_too_long_is_a_bug() {
    // 23 zero digits decode fine but cannot be stored in 22 characters.
    let text = "1".repeat(23);
    assert!(matches!(String16::from_str(text.as_str()), Err(DecodeError::Bug)));
}

#[test]
fn test_decode_known_value() {
    // "abcd" has digits 33, 34, 35, 36: ((33*58 + 34)*58 + 35)*58 + 36 = 6555138.
    let mut expected = vec![0u8; 16];
    expected[13] = 0x64;
    expected[14] = 0x06;
    expected[15] = 0x02;
    assert_eq!(String16::decode("abcd").unwrap(), expected);

    // The stored parse text decodes to the same bytes as the bare input.
    let parsed = String16::from_str("abcd").unwrap();
    assert_eq!(String16::decode(parsed.as_str()).unwrap(), expected);

    // Re-encoding those bytes gives the canonically padded text.
    let enc = String16::encode(&expected);
    assert_eq!(enc.as_str(), "111111111111111111abcd");
}

#[test]
fn test_default_is_zero_text() {
    assert_eq!(String16::default().as_str(), "1111111111111111111111");
    assert_eq!(String16::default(), String16::encode(&vec![0u8; 16]));
}

#[test]
fn test_byte_views() {
    let s = String16::encode(&vec![0u8; 16]);
    assert_eq!(s.as_bytes().to_vec(), vec![b'1'; 22]);
    let with_nul = s.as_bytes_with_nul();
    assert_eq!(with_nul.len(), 23);
    assert_eq!(with_nul[22], 0);
    assert_eq!(with_nul[..22].to_vec(), vec![b'1'; 22]);
}

#[test]
fn test_to_base58_trait() {
    let arr = [7u8; 16];
    let s = arr.to_base58();
    let v: Vec<u8> = arr.to_vec();
    assert_eq!(s, String16::encode(&v));

    let arr64 = [3u8; 64];
    let s64 = arr64.to_base58();
    assert_eq!(s64, String64::encode(&arr64.to_vec()));
}

#[test]
fn test_ordering_is_textual() {
    let a = String16::from_str("2").unwrap();
    let b = String16::from_str("z").unwrap();
    assert!(a < b);
    assert_eq!(a.clone(), a);
}

#[test]
fn test_error_message() {
    assert_eq!(String16::decode("0").unwrap_err().message(), "bad input");
    let text = "1".repeat(23);
    let err = String16::from_str(text.as_str()).unwrap_err();
    assert_eq!(err.message(), "internal invariant violation");
}

#[test]
fn test_parse_pads_other_widths() {
    let s = String32::from_str("zz").unwrap();
    let mut expected = "1".repeat(42);
    expected.push_str("zz");
    assert_eq!(s.as_str(), expected.as_str());

    let s = String64::from_str("").unwrap();
    assert_eq!(s.as_str(), "1".repeat(88).as_str());
    assert_eq!(s, String64::default());
}
