use mining_pool::hash::{
    canonical_sha256, count_leading_zero_bits, hash_to_sha256_buffer, max, sha245_to_string,
};

#[test]
fn leading_zero_bits_of_all_zero_digest_is_256() {
    let buffer = [0u8; 32];
    assert_eq!(count_leading_zero_bits(&buffer), 256);
}

#[test]
fn leading_zero_bits_of_high_bit_set_is_zero() {
    let mut buffer = [0u8; 32];
    buffer[0] = 0x80;
    assert_eq!(count_leading_zero_bits(&buffer), 0);
}

#[test]
fn leading_zero_bits_of_zero_then_one_is_15() {
    let mut buffer = [0u8; 32];
    buffer[1] = 0x01;
    assert_eq!(count_leading_zero_bits(&buffer), 15);
}

#[test]
fn leading_zero_bits_per_byte_class() {
    let cases: [(u8, u64); 9] = [
        (0x01, 7),
        (0x02, 6),
        (0x03, 6),
        (0x04, 5),
        (0x0f, 4),
        (0x10, 3),
        (0x20, 2),
        (0x7f, 1),
        (0xff, 0),
    ];
    for (byte, bits) in cases {
        assert_eq!(count_leading_zero_bits(&[byte, 0xff]), bits);
    }
    assert_eq!(count_leading_zero_bits(&[]), 0);
}

#[test]
fn hex_decodes_both_cases() {
    let bytes = hash_to_sha256_buffer(&String::from("00ffA0b1")).unwrap();
    assert_eq!(bytes, vec![0x00, 0xff, 0xa0, 0xb1]);
    assert_eq!(hash_to_sha256_buffer(&String::new()).unwrap(), Vec::<u8>::new());
}

#[test]
fn hex_rejects_odd_length() {
    assert!(hash_to_sha256_buffer(&String::from("abc")).is_err());
}

#[test]
fn hex_rejects_non_hex_digit() {
    assert!(hash_to_sha256_buffer(&String::from("0g")).is_err());
    assert!(hash_to_sha256_buffer(&String::from("g0")).is_err());
}

#[test]
fn digest_text_is_lowercase_two_digits_per_byte() {
    assert_eq!(sha245_to_string(&[0x00, 0x0a, 0xff, 0x5c]), "000aff5c");
    assert_eq!(sha245_to_string(&[]), "");
}

#[test]
fn canonical_hash_of_student_and_nonce() {
    let h = canonical_sha256(&String::from("s1"), &String::from("abc"));
    assert_eq!(h, "ef43b54ec97d88c4aa8a75094bdec7fdf16bb3fe0d795ceae84b5dfa88e2b0dc");
}

#[test]
fn canonical_hash_with_found_nonce_has_leading_zeros() {
    let h = canonical_sha256(&String::from("s1"), &String::from("803496"));
    assert_eq!(h, "000009076b49a9d64f354600b4b1cf664dd75657914f5cc30f7333157e9921ac");
    let bytes = hash_to_sha256_buffer(&h).unwrap();
    assert_eq!(count_leading_zero_bits(&bytes), 20);
}

#[test]
fn max_picks_larger() {
    assert_eq!(max(3, 7), 7);
    assert_eq!(max(7, 3), 7);
    assert_eq!(max(5, 5), 5);
}
