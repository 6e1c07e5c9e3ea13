//! Algorithm names, content hashes and their messages.

use fetchurl_sdk::{
    expected_hex_length, is_supported, normalize_algo, normalize_content_hash, to_hex, Error,
};
use sha2::Digest;

fn sha256_hex(data: &[u8]) -> String {
    to_hex(sha2::Sha256::digest(data).as_slice())
}

#[test]
fn test_normalize_algo() {
    assert_eq!(normalize_algo("SHA-256"), "sha256");
    assert_eq!(normalize_algo("sha256"), "sha256");
    assert_eq!(normalize_algo("SHA512"), "sha512");
    assert_eq!(normalize_algo("md5"), "md5");
}

#[test]
fn test_is_supported() {
    assert!(is_supported("sha256"));
    assert!(is_supported("SHA-256"));
    assert!(is_supported("sha1"));
    assert!(is_supported("sha512"));
    assert!(!is_supported("md5"));
}

#[test]
fn test_expected_hex_length() {
    assert_eq!(expected_hex_length("sha1").unwrap(), 40);
    assert_eq!(expected_hex_length("SHA-256").unwrap(), 64);
    assert_eq!(expected_hex_length("sha512").unwrap(), 128);
    assert!(matches!(
        expected_hex_length("md5"),
        Err(Error::UnsupportedAlgorithm(_))
    ));
}

#[test]
fn test_normalize_content_hash_lowercases() {
    let hash = sha256_hex(b"hello world");
    let upper = hash.to_ascii_uppercase();
    assert_eq!(normalize_content_hash("sha256", &upper).unwrap(), hash);
}

#[test]
fn test_normalize_content_hash_rejects_wrong_length() {
    let err = normalize_content_hash("sha256", "abcd").unwrap_err();
    let msg = err.to_string();
    assert!(msg.contains("hex characters"), "got {msg}");
    assert!(matches!(err, Error::InvalidHash(_)));
}

#[test]
fn test_normalize_content_hash_rejects_non_hex() {
    let almost = "e3b0c44298fc1c149afbf4c8996fb92427ae41e4649b934ca495991b7852b85g";
    let err = normalize_content_hash("sha256", almost).unwrap_err();
    assert!(err.to_string().contains("hexadecimal"));
    assert!(matches!(err, Error::InvalidHash(_)));
}

#[test]
fn test_normalize_content_hash_rejects_blank() {
    for bad in ["", "   "] {
        let err = normalize_content_hash("sha256", bad).unwrap_err();
        assert_eq!(err.to_string(), "hash is required");
        assert!(matches!(err, Error::InvalidHash(_)));
    }
}

#[test]
fn normalizing_twice_changes_nothing() {
    for name in ["SHA-256", " s h a 1 ", "\u{212a}\u{c9}Sha_512!", ""] {
        let once = normalize_algo(name);
        assert_eq!(normalize_algo(&once), once);
    }
    assert_eq!(normalize_algo("\u{212a}\u{c9}Sha_512!"), "sha512");
    let hash = sha256_hex(b"x").to_ascii_uppercase();
    let once = normalize_content_hash("Sha256", &hash).unwrap();
    assert_eq!(normalize_content_hash("sha-256", &once).unwrap(), once);
}

#[test]
fn messages_are_exact() {
    assert_eq!(
        expected_hex_length("MD-5").unwrap_err().to_string(),
        "unsupported algorithm: md5"
    );
    assert_eq!(
        normalize_content_hash("SHA-256", "abcd").unwrap_err().to_string(),
        "hash must be 64 hex characters for sha256 (got 4)"
    );
    let long = "a".repeat(1030);
    assert_eq!(
        normalize_content_hash("sha512", &long).unwrap_err().to_string(),
        "hash must be 128 hex characters for sha512 (got 1030)"
    );
    assert_eq!(
        normalize_content_hash("sha1", &"g".repeat(40)).unwrap_err().to_string(),
        "hash must be hexadecimal"
    );
    assert_eq!(Error::MissingSourceUrls.to_string(), "source_urls is required");
    let mismatch = Error::HashMismatch {
        expected: "aa".to_string(),
        actual: "bb".to_string(),
    };
    assert_eq!(mismatch.to_string(), "hash mismatch: expected aa, got bb");
}

#[test]
fn hash_length_is_counted_in_bytes() {
    // 20 characters of two bytes each are as long as a SHA-1 hash.
    let forty_bytes = "\u{e9}".repeat(20);
    assert_eq!(
        normalize_content_hash("sha1", &forty_bytes).unwrap_err().to_string(),
        "hash must be hexadecimal"
    );
    let eighty_bytes = "\u{e9}".repeat(40);
    assert_eq!(
        normalize_content_hash("sha1", &eighty_bytes).unwrap_err().to_string(),
        "hash must be 40 hex characters for sha1 (got 80)"
    );
}

#[test]
fn blank_hash_is_reported_before_the_algorithm() {
    assert!(matches!(
        normalize_content_hash("md5", " \u{a0}"),
        Err(Error::InvalidHash(_))
    ));
    match normalize_content_hash("MD5", "00") {
        Err(Error::UnsupportedAlgorithm(name)) => assert_eq!(name, "md5"),
        _ => panic!("expected UnsupportedAlgorithm"),
    }
}

#[test]
fn surrounding_space_counts_as_part_of_a_hash() {
    let hash = format!(" {}", "a".repeat(40));
    assert_eq!(
        normalize_content_hash("sha1", &hash).unwrap_err().to_string(),
        "hash must be 40 hex characters for sha1 (got 41)"
    );
}

#[test]
fn hex_of_every_byte() {
    let all: Vec<u8> = (0u8..=255).collect();
    let expected: String = all.iter().map(|b| format!("{b:02x}")).collect();
    assert_eq!(to_hex(&all), expected);
    assert_eq!(to_hex(&[]), "");
    assert_ne!(to_hex(&[0x01, 0x20]), to_hex(&[0x12, 0x00]));
}
