use kademlia_dht::key::Key;
use kademlia_dht::KEY_LEN;

fn key_of(first: u8, last: u8) -> Key {
    let mut bytes = [0u8; KEY_LEN];
    bytes[0] = first;
    bytes[KEY_LEN - 1] = last;
    Key::from_bytes(bytes)
}

fn hashed(text: &str) -> Key {
    Key::new(text.to_string())
}

#[test]
fn key_length_is_the_sha256_output_size() {
    assert_eq!(KEY_LEN, 32);
    assert_eq!(hashed("abc").0.len(), 32);
}

#[test]
fn new_is_the_sha256_digest_of_the_seed() {
    let expected: [u8; 32] = [
        0xba, 0x78, 0x16, 0xbf, 0x8f, 0x01, 0xcf, 0xea, 0x41, 0x41, 0x40, 0xde, 0x5d, 0xae, 0x22,
        0x23, 0xb0, 0x03, 0x61, 0xa3, 0x96, 0x17, 0x7a, 0x9c, 0xb4, 0x10, 0xff, 0x61, 0xf2, 0x00,
        0x15, 0xad,
    ];
    assert_eq!(hashed("abc").0, expected);
}

#[test]
fn new_of_the_empty_seed() {
    let expected: [u8; 32] = [
        0xe3, 0xb0, 0xc4, 0x42, 0x98, 0xfc, 0x1c, 0x14, 0x9a, 0xfb, 0xf4, 0xc8, 0x99, 0x6f, 0xb9,
        0x24, 0x27, 0xae, 0x41, 0xe4, 0x64, 0x9b, 0x93, 0x4c, 0xa4, 0x95, 0x99, 0x1b, 0x78, 0x52,
        0xb8, 0x55,
    ];
    assert_eq!(hashed("").0, expected);
}

#[test]
fn new_hashes_the_utf8_bytes_of_the_seed() {
    let expected: [u8; 32] = [
        0x3c, 0x48, 0x59, 0x1d, 0x8d, 0x09, 0x8a, 0x45, 0x38, 0xf5, 0xe0, 0x13, 0xdf, 0xcf, 0x40,
        0x6e, 0x94, 0x8e, 0xac, 0x4d, 0x32, 0x77, 0xb1, 0x0b, 0xf6, 0x14, 0xe2, 0x95, 0xd6, 0x06,
        0x81, 0x79,
    ];
    assert_eq!(hashed("h\u{e9}llo").0, expected);
}

#[test]
fn new_is_deterministic() {
    assert_eq!(hashed("127.0.0.1:9001"), hashed("127.0.0.1:9001"));
    assert_ne!(hashed("127.0.0.1:9001"), hashed("127.0.0.1:9002"));
}

#[test]
fn from_bytes_keeps_the_bytes() {
    let mut bytes = [0u8; KEY_LEN];
    bytes[3] = 0x5a;
    bytes[31] = 0x01;
    let key = Key::from_bytes(bytes);
    assert_eq!(key.0, bytes);
    assert_eq!(key, Key(bytes));
}

#[test]
fn keys_are_equal_when_their_bytes_are() {
    assert!(key_of(1, 2) == key_of(1, 2));
    assert!(key_of(1, 2) != key_of(1, 3));
    assert!(key_of(1, 2) != key_of(2, 2));
}

#[test]
fn distance_is_bytewise_xor() {
    let a = key_of(0b1100_1010, 0x0f);
    let b = key_of(0b1010_0110, 0xf0);
    let d = a.distance(&b);
    let mut expected = [0u8; KEY_LEN];
    expected[0] = 0b0110_1100;
    expected[KEY_LEN - 1] = 0xff;
    assert_eq!(d.0, expected);
}

#[test]
fn distance_of_hashed_keys_is_bytewise_xor() {
    let a = hashed("127.0.0.1:9000");
    let b = hashed("127.0.0.1:9001");
    let d = a.distance(&b);
    for i in 0..KEY_LEN {
        assert_eq!(d.0[i], a.0[i] ^ b.0[i]);
    }
    assert_eq!(&d.0[..8], &[0xa4, 0x17, 0xb5, 0xe7, 0x5a, 0xd9, 0x8b, 0xa0]);
}

#[test]
fn distance_is_symmetric() {
    let a = hashed("alpha");
    let b = hashed("beta");
    assert_eq!(a.distance(&b), b.distance(&a));
}

#[test]
fn distance_to_self_is_zero() {
    let a = hashed("alpha");
    assert_eq!(a.distance(&a), Key::from_bytes([0u8; KEY_LEN]));
}

#[test]
fn distance_is_zero_only_between_equal_keys() {
    let zero = Key::from_bytes([0u8; KEY_LEN]);
    let a = hashed("alpha");
    let b = hashed("beta");
    assert_ne!(a.distance(&b), zero);
    let same = Key::from_bytes(a.0);
    assert_eq!(a.distance(&same), zero);
}

#[test]
fn distances_telescope_under_xor() {
    let a = hashed("alpha");
    let b = hashed("beta");
    let c = hashed("gamma");
    let ab = a.distance(&b);
    let bc = b.distance(&c);
    assert_eq!(ab.distance(&bc), a.distance(&c));
}

#[test]
fn less_than_reads_the_most_significant_byte_first() {
    let low = key_of(0, 0xff);
    let high = key_of(1, 0);
    assert!(low.less_than(&high));
    assert!(!high.less_than(&low));
}

#[test]
fn less_than_is_strict() {
    let a = key_of(7, 7);
    assert!(!a.less_than(&a));
    assert!(!a.less_than(&key_of(7, 7)));
}

#[test]
fn less_than_is_decided_by_the_first_difference() {
    let mut x = [0x11u8; KEY_LEN];
    let mut y = [0x11u8; KEY_LEN];
    x[10] = 0x10;
    y[10] = 0x12;
    x[11] = 0xff;
    y[11] = 0x00;
    assert!(Key::from_bytes(x).less_than(&Key::from_bytes(y)));
    assert!(!Key::from_bytes(y).less_than(&Key::from_bytes(x)));
}

#[test]
fn less_than_agrees_with_byte_order_on_hashed_keys() {
    let names = ["a", "b", "c", "d", "e", "f", "g", "h"];
    for x in names.iter() {
        for y in names.iter() {
            let a = hashed(x);
            let b = hashed(y);
            assert_eq!(a.less_than(&b), a.0 < b.0);
        }
    }
}

#[test]
fn leading_zeros_of_the_zero_key() {
    assert_eq!(Key::from_bytes([0u8; KEY_LEN]).leading_zeros(), 256);
}

#[test]
fn leading_zeros_counts_bits_before_the_first_set_bit() {
    assert_eq!(key_of(0x80, 0).leading_zeros(), 0);
    assert_eq!(key_of(0xff, 0xff).leading_zeros(), 0);
    assert_eq!(key_of(0x40, 0).leading_zeros(), 1);
    assert_eq!(key_of(0x01, 0).leading_zeros(), 7);
    assert_eq!(key_of(0, 0x80).leading_zeros(), 248);
    assert_eq!(key_of(0, 0x01).leading_zeros(), 255);
    let mut bytes = [0u8; KEY_LEN];
    bytes[1] = 0x10;
    bytes[5] = 0xff;
    assert_eq!(Key::from_bytes(bytes).leading_zeros(), 11);
}

#[test]
fn leading_zeros_for_every_bit_of_a_byte() {
    for bit in 0..8usize {
        let mut bytes = [0u8; KEY_LEN];
        bytes[2] = 1u8 << bit;
        assert_eq!(Key::from_bytes(bytes).leading_zeros(), 16 + 7 - bit);
        bytes[2] |= (1u8 << bit) - 1;
        assert_eq!(Key::from_bytes(bytes).leading_zeros(), 16 + 7 - bit);
    }
}

#[test]
fn the_highest_set_bit_is_the_binary_logarithm_of_the_value() {
    let values: [u64; 9] = [1, 2, 3, 4, 255, 256, 0x8000, 0x0123_4567_89ab_cdef, u64::MAX];
    for value in values.iter() {
        let mut bytes = [0u8; KEY_LEN];
        bytes[KEY_LEN - 8..].copy_from_slice(&value.to_be_bytes());
        let zeros = Key::from_bytes(bytes).leading_zeros();
        let highest = 255 - zeros;
        assert_eq!(highest as u32, 63 - value.leading_zeros());
        assert!(*value >> highest == 1);
    }
}

#[test]
fn less_than_agrees_with_the_integer_order() {
    let values: [u64; 7] = [0, 1, 2, 255, 256, 0x0123_4567_89ab_cdef, u64::MAX];
    for x in values.iter() {
        for y in values.iter() {
            let mut a = [0u8; KEY_LEN];
            let mut b = [0u8; KEY_LEN];
            a[KEY_LEN - 8..].copy_from_slice(&x.to_be_bytes());
            b[KEY_LEN - 8..].copy_from_slice(&y.to_be_bytes());
            assert_eq!(Key::from_bytes(a).less_than(&Key::from_bytes(b)), x < y);
        }
    }
}

#[test]
fn more_leading_zeros_mean_a_smaller_key() {
    let names = ["a", "b", "c", "d", "e", "f", "g", "h", "i", "j"];
    let origin = hashed("origin");
    for x in names.iter() {
        for y in names.iter() {
            let a = origin.distance(&hashed(x));
            let b = origin.distance(&hashed(y));
            if a.leading_zeros() > b.leading_zeros() {
                assert!(a.less_than(&b));
            }
        }
    }
}
