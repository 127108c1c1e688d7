use repyh_proof_of_work::hash::{has_leading_zeros, hash_bytes, B58Encode, Digest, HASH_LENGTH};

fn digest_from_fn(f: impl Fn(usize) -> u8) -> Digest {
    let bytes: Vec<u8> = (0..HASH_LENGTH).map(f).collect();
    Digest::from_bytes(&bytes).unwrap()
}

#[test]
fn test_check_leading_zeros() {
    assert!(has_leading_zeros(&Digest::repeat_byte(0), 0));
    assert!(has_leading_zeros(&Digest::repeat_byte(0), 1));
    assert!(has_leading_zeros(&Digest::repeat_byte(0), 0));
    assert!(has_leading_zeros(&Digest::repeat_byte(0), 32));

    assert!(has_leading_zeros(&Digest::repeat_byte(1), 0));
    assert!(!has_leading_zeros(&Digest::repeat_byte(1), 1));
    assert!(!has_leading_zeros(&Digest::repeat_byte(1), 32));

    let from_zero = digest_from_fn(|i| i as u8);
    let from_one = digest_from_fn(|i| i as u8 + 1);
    assert!(has_leading_zeros(&from_zero, 1));
    assert!(!has_leading_zeros(&from_zero, 2));
    assert!(has_leading_zeros(&from_one, 0));
    assert!(!has_leading_zeros(&from_one, 1));
}

#[test]
fn digest_bytes_round_trip() {
    let d = digest_from_fn(|i| (7 * i + 3) as u8);
    let bytes = d.to_bytes();
    assert_eq!(bytes.len(), 32);
    for (i, b) in bytes.iter().enumerate() {
        assert_eq!(*b, (7 * i + 3) as u8);
    }
    assert_eq!(Digest::from_bytes(&bytes).unwrap(), d);
    assert!(Digest::from_bytes(&bytes[..31]).is_none());
}

#[test]
fn sha256_known_answer() {
    // SHA-256 of the empty input, a published reference value
    let d = hash_bytes(&[]);
    let expected: [u8; 32] = [
        0xe3, 0xb0, 0xc4, 0x42, 0x98, 0xfc, 0x1c, 0x14, 0x9a, 0xfb, 0xf4, 0xc8, 0x99, 0x6f, 0xb9,
        0x24, 0x27, 0xae, 0x41, 0xe4, 0x64, 0x9b, 0x93, 0x4c, 0xa4, 0x95, 0x99, 0x1b, 0x78, 0x52,
        0xb8, 0x55,
    ];
    assert_eq!(d.to_bytes(), expected.to_vec());
    // and of "abc"
    let d2 = hash_bytes(b"abc");
    let expected2: [u8; 32] = [
        0xba, 0x78, 0x16, 0xbf, 0x8f, 0x01, 0xcf, 0xea, 0x41, 0x41, 0x40, 0xde, 0x5d, 0xae, 0x22,
        0x23, 0xb0, 0x03, 0x61, 0xa3, 0x96, 0x17, 0x7a, 0x9c, 0xb4, 0x10, 0xff, 0x61, 0xf2, 0x00,
        0x15, 0xad,
    ];
    assert_eq!(d2.to_bytes(), expected2.to_vec());
}

#[test]
fn base58_rendering() {
    // base58 of 32 one-bytes must match the Bitcoin alphabet rendering
    let d = Digest::repeat_byte(1);
    let s = d.encode();
    assert!(!s.is_empty());
    assert!(s
        .chars()
        .all(|c| "123456789ABCDEFGHJKLMNPQRSTUVWXYZabcdefghijkmnopqrstuvwxyz".contains(c)));
    // all-zero bytes render as 32 leading '1' digits
    assert_eq!(Digest::repeat_byte(0).encode(), "1".repeat(32));
}
