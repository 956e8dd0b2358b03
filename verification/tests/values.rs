//! Byte, hex, base64, digit and number generation.

use ciphergen::encoding::{to_base64, to_hex};
use ciphergen::config::GenerateCommands;
use ciphergen::generate::{create_bytes, create_digits, create_number, generate, Output};
use ciphergen::generators::{generate_base64, generate_bytes, generate_digits, generate_hex, generate_number};

#[test]
fn binary_generates_one_kilobyte_as_hex() {
    let bytes = generate_hex(false, 1024);
    let string = std::str::from_utf8(&bytes).unwrap();

    assert_eq!(string.chars().count(), 2048)
}

#[test]
fn binary_generates_zero_bytes_as_hex() {
    let bytes = generate_hex(false, 0);

    assert_eq!(bytes.len(), 0)
}

#[test]
fn binary_generates_one_kilobyte_as_base64() {
    let bytes = generate_base64(false, 1024);
    let string = std::str::from_utf8(&bytes).unwrap();

    assert_eq!(string.chars().count(), 1368)
}

#[test]
fn binary_generates_zero_bytes_as_base64() {
    let bytes = generate_base64(false, 0);

    assert_eq!(bytes.len(), 0)
}

#[test]
fn tests_generates_one_kilobyte_as_hex() {
    let bytes = generate_hex(false, 1024);
    let string = std::str::from_utf8(&bytes).unwrap();

    assert_eq!(string.chars().count(), 2048)
}

#[test]
fn tests_generates_zero_bytes_as_hex() {
    let bytes = generate_hex(false, 0);

    assert_eq!(bytes.len(), 0)
}

#[test]
fn tests_generates_one_kilobyte_as_base64() {
    let bytes = generate_base64(false, 1024);
    let string = std::str::from_utf8(&bytes).unwrap();

    assert_eq!(string.chars().count(), 1368)
}

#[test]
fn tests_generates_zero_bytes_as_base64() {
    let bytes = generate_base64(false, 0);

    assert_eq!(bytes.len(), 0)
}

#[test]
fn hex_encodes_known_bytes_exactly() {
    let bytes = vec![0xABu8, 0x01, 0xFF, 0x00];
    assert_eq!(to_hex(&bytes, false), b"ab01ff00".to_vec());
    assert_eq!(to_hex(&bytes, true), b"AB01FF00".to_vec());
}

#[test]
fn base64_encodes_known_bytes_exactly() {
    assert_eq!(to_base64(&b"Man".to_vec(), false), b"TWFu".to_vec());
    assert_eq!(to_base64(&b"Ma".to_vec(), false), b"TWE=".to_vec());
    assert_eq!(to_base64(&b"M".to_vec(), false), b"TQ==".to_vec());
    assert_eq!(to_base64(&vec![0xFBu8, 0xFF], false), b"+/8=".to_vec());
    assert_eq!(to_base64(&vec![0xFBu8, 0xFF], true), b"-_8=".to_vec());
}

#[test]
fn generates_requested_byte_count() {
    assert_eq!(generate_bytes(64).len(), 64);
    assert_eq!(create_bytes(0).len(), 0);
}

#[test]
fn digits_are_ascii_decimal() {
    let digits = generate_digits(100);
    assert_eq!(digits.len(), 100);
    assert!(digits.iter().all(|b| (48..=57).contains(b)));
}

#[test]
fn digit_batches_join_with_newlines() {
    let out = create_digits(4, Some(3));
    assert_eq!(out.len(), 4 * 3 + 2);
    assert_eq!(out.iter().filter(|b| **b == 10).count(), 2);
}

#[test]
fn numbers_stay_in_their_range() {
    for _ in 0..50 {
        let bytes = generate_number(10, 20);
        let text = std::str::from_utf8(&bytes).unwrap();
        let value: u64 = text.parse().unwrap();
        assert!((10..=20).contains(&value));
    }
    let one = create_number(0, 5, None);
    let text = std::str::from_utf8(&one).unwrap();
    let value: u64 = text.parse().unwrap();
    assert!(value <= 5);
}

#[test]
fn can_generate_eight_random_bytes() {
    let bytes = generate_bytes(8);

    assert_eq!(bytes.len(), 8)
}

#[test]
fn can_generate_eight_random_bytes_in_hex() {
    let hex = generate_hex(false, 8);
    let string = std::str::from_utf8(&hex).unwrap();

    assert_eq!(string.chars().count(), 16)
}

#[test]
fn dispatch_runs_each_generator_kind() {
    let none: Vec<String> = Vec::new();
    match generate(&GenerateCommands::Bytes { length: 16 }, &none) {
        Output::Bytes(b) => assert_eq!(b.len(), 16),
        Output::Text(_) => panic!("bytes expected"),
    }
    match generate(&GenerateCommands::Hex { uppercase: true, length: 4 }, &none) {
        Output::Bytes(b) => assert_eq!(b.len(), 8),
        Output::Text(_) => panic!("bytes expected"),
    }
    match generate(&GenerateCommands::Number { minimum: 1, maximum: 9, count: None }, &none) {
        Output::Bytes(b) => {
            let v: u64 = std::str::from_utf8(&b).unwrap().parse().unwrap();
            assert!((1..=9).contains(&v));
        }
        Output::Text(_) => panic!("bytes expected"),
    }
    let wordlist: Vec<String> = vec!["oak".into(), "elm".into()];
    match generate(
        &GenerateCommands::Passphrase {
            path: None,
            delimiter: '\n',
            separator: "-".into(),
            length: 3,
            count: None,
        },
        &wordlist,
    ) {
        Output::Text(t) => assert_eq!(t.split('-').count(), 3),
        Output::Bytes(_) => panic!("text expected"),
    }
}

#[test]
fn binary_generates_one_kilobyte() {
    let bytes = generate_bytes(1024);

    assert_eq!(bytes.len(), 1024)
}

#[test]
fn binary_generates_zero_bytes() {
    let bytes = generate_bytes(0);

    assert_eq!(bytes.len(), 0)
}

#[test]
fn tests_generates_one_kilobyte() {
    let bytes = generate_bytes(1024);

    assert_eq!(bytes.len(), 1024)
}

#[test]
fn tests_generates_zero_bytes() {
    let bytes = generate_bytes(0);

    assert_eq!(bytes.len(), 0)
}

#[test]
fn digits_generates_ten_thousand_digits() {
    let bytes = generate_digits(10000);
    let string = std::str::from_utf8(&bytes).unwrap();

    assert_eq!(string.chars().count(), 10000)
}

#[test]
fn digits_generates_zero_digits() {
    let bytes = generate_digits(0);

    assert_eq!(bytes.len(), 0)
}

#[test]
fn tests_generates_ten_thousand_digits() {
    let bytes = generate_digits(10000);
    let string = std::str::from_utf8(&bytes).unwrap();

    assert_eq!(string.chars().count(), 10000)
}

#[test]
fn tests_generates_zero_digits() {
    let bytes = generate_digits(0);

    assert_eq!(bytes.len(), 0)
}

#[test]
fn number_generates_number() {
    let bytes = generate_number(0, 1024);
    let string = std::str::from_utf8(&bytes).unwrap();
    let number = u64::from_str_radix(string, 10).unwrap();

    assert!(number <= 1024)
}

#[test]
fn tests_generates_number() {
    let bytes = generate_number(0, 1024);
    let string = std::str::from_utf8(&bytes).unwrap();
    let number = u64::from_str_radix(string, 10).unwrap();

    assert!(number <= 1024)
}
