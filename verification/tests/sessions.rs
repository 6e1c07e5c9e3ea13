//! Sessions and their verifiers.

use std::io::Write;

use fetchurl_sdk::{parse_sfv_string_list, to_hex, Error, FetchSession, HashVerifier};
use sha2::Digest;

fn sha256_hex(data: &[u8]) -> String {
    to_hex(sha2::Sha256::digest(data).as_slice())
}

fn write_all(verifier: &mut HashVerifier<&mut Vec<u8>>, data: &[u8]) {
    let mut rest = data;
    while !rest.is_empty() {
        let answer = verifier.inner_mut().write(rest);
        let n = verifier.record_write(rest, answer).unwrap();
        rest = &rest[n..];
    }
}

#[test]
fn test_session_rejects_blank_hash() {
    match FetchSession::new(None, "sha256", "", &["http://src"]) {
        Err(err) => assert_eq!(err.to_string(), "hash is required"),
        Ok(_) => panic!("expected InvalidHash"),
    }
}

#[test]
fn test_session_rejects_non_hex_hash() {
    let almost = "e3b0c44298fc1c149afbf4c8996fb92427ae41e4649b934ca495991b7852b85g";
    match FetchSession::new(None, "sha256", almost, &["http://src"]) {
        Err(err) => assert!(err.to_string().contains("hexadecimal")),
        Ok(_) => panic!("expected InvalidHash"),
    }
}

#[test]
fn test_session_rejects_wrong_length_hash() {
    match FetchSession::new(None, "sha256", "abcd", &["http://src"]) {
        Err(err) => assert!(err.to_string().contains("hex characters")),
        Ok(_) => panic!("expected InvalidHash"),
    }
}

#[test]
fn test_hash_verifier_success() {
    let data = b"hello world";
    let hash = sha256_hex(data);

    let mut output = Vec::new();
    {
        let mut verifier = HashVerifier::new("sha256", &hash, &mut output);
        write_all(&mut verifier, data);
        assert_eq!(verifier.bytes_written(), data.len() as u64);
        verifier.finish().unwrap();
    }
    assert_eq!(output, data);
}

#[test]
fn test_hash_verifier_accepts_uppercase_expected() {
    let data = b"hello world";
    let hash = sha256_hex(data).to_ascii_uppercase();

    let mut output = Vec::new();
    let mut verifier = HashVerifier::new("sha256", &hash, &mut output);
    write_all(&mut verifier, data);
    verifier.finish().unwrap();
    assert_eq!(output, data);
}

#[test]
fn test_hash_verifier_mismatch() {
    let data = b"hello world";
    let wrong_hash = sha256_hex(b"wrong");

    let mut output = Vec::new();
    let mut verifier = HashVerifier::new("sha256", &wrong_hash, &mut output);
    write_all(&mut verifier, data);
    let err = verifier.finish().unwrap_err();
    assert!(matches!(err, Error::HashMismatch { .. }));
}

#[test]
fn test_session_lowercases_hash_in_server_url() {
    let hash = sha256_hex(b"test");
    let upper = hash.to_ascii_uppercase();
    let mut session = FetchSession::with_servers(
        &["http://cache/api/fetchurl"],
        "sha256",
        &upper,
        &["http://src"],
    )
    .unwrap();
    let attempt = session.next_attempt().unwrap();
    assert!(
        attempt.url().ends_with(&format!("/sha256/{hash}")),
        "server URL must use lowercase hash, got {}",
        attempt.url()
    );
}

#[test]
fn test_session_unsupported_algo() {
    let err = FetchSession::new(None, "md5", "abc", &["http://src"]);
    assert!(matches!(err, Err(Error::UnsupportedAlgorithm(_))));
}

#[test]
fn test_session_missing_source_urls() {
    let err = FetchSession::new(None, "sha256", "abc", &[] as &[&str]);
    assert!(matches!(err, Err(Error::MissingSourceUrls)));
}

#[test]
fn test_session_attempt_ordering() {
    let hash = sha256_hex(b"test");
    let mut session = FetchSession::with_servers(
        &["http://cache1/api/fetchurl", "http://cache2/api/fetchurl"],
        "sha256",
        &hash,
        &["http://src1"],
    )
    .unwrap();

    // First two attempts should be servers
    let a1 = session.next_attempt().unwrap();
    assert!(a1.url().starts_with("http://cache1/api/fetchurl/sha256/"));
    assert!(!a1.headers().is_empty());

    let a2 = session.next_attempt().unwrap();
    assert!(a2.url().starts_with("http://cache2/api/fetchurl/sha256/"));

    // Third should be direct source
    let a3 = session.next_attempt().unwrap();
    assert_eq!(a3.url(), "http://src1");
    assert!(a3.headers().is_empty());

    // No more
    assert!(session.next_attempt().is_none());
    assert!(!session.succeeded());
}

#[test]
fn test_session_empty_servers_only_direct() {
    let hash = sha256_hex(b"test");
    let mut session =
        FetchSession::with_servers(&[] as &[&str], "sha256", &hash, &["http://src1"]).unwrap();
    let a1 = session.next_attempt().unwrap();
    assert_eq!(a1.url(), "http://src1");
    assert!(a1.headers().is_empty());
    assert!(session.next_attempt().is_none());
}

#[test]
fn test_session_success_stops() {
    let hash = sha256_hex(b"test");
    let mut session = FetchSession::with_servers(
        &["http://cache/api/fetchurl"],
        "sha256",
        &hash,
        &["http://src"],
    )
    .unwrap();

    let _ = session.next_attempt().unwrap();
    session.report_success();
    assert!(session.succeeded());
    assert!(session.next_attempt().is_none());
}

#[test]
fn test_session_partial_stops() {
    let hash = sha256_hex(b"test");
    let mut session = FetchSession::with_servers(
        &["http://cache/api/fetchurl"],
        "sha256",
        &hash,
        &["http://src"],
    )
    .unwrap();

    let _ = session.next_attempt().unwrap();
    session.report_partial();
    assert!(!session.succeeded());
    assert!(session.next_attempt().is_none());
}

#[test]
fn test_session_server_has_source_header() {
    let hash = sha256_hex(b"test");
    let mut session = FetchSession::with_servers(
        &["http://cache/api/fetchurl"],
        "sha256",
        &hash,
        &["http://src1", "http://src2"],
    )
    .unwrap();

    let attempt = session.next_attempt().unwrap();
    let source_header = attempt
        .headers()
        .iter()
        .find(|(k, _)| k == "X-Source-Urls")
        .map(|(_, v)| v.clone())
        .unwrap();

    let parsed = parse_sfv_string_list(&source_header);
    assert!(parsed.contains(&"http://src1".to_string()));
    assert!(parsed.contains(&"http://src2".to_string()));
}

#[test]
fn session_honors_the_server_value() {
    let hash = sha256_hex(b"test");
    let mut session = FetchSession::new(
        Some("\"http://from-env/api/fetchurl\""),
        "sha256",
        &hash,
        &["http://src"],
    )
    .unwrap();
    let attempt = session.next_attempt().unwrap();
    assert!(
        attempt
            .url()
            .starts_with("http://from-env/api/fetchurl/sha256/"),
        "new() must honor FETCHURL_SERVER, got {}",
        attempt.url()
    );
}

#[test]
fn parameters_of_servers_name_no_server() {
    let hash = sha256_hex(b"test");
    let mut session = FetchSession::new(
        Some(r#""http://a";p=",", "http://b""#),
        "sha256",
        &hash,
        &["http://src"],
    )
    .unwrap();
    let mut tried: Vec<String> = Vec::new();
    while let Some(attempt) = session.next_attempt() {
        tried.push(attempt.url().to_string());
    }
    assert_eq!(
        tried,
        vec![
            format!("http://a/sha256/{hash}"),
            format!("http://b/sha256/{hash}"),
            "http://src".to_string(),
        ]
    );
}

#[test]
fn absent_and_blank_server_values_name_no_server() {
    let hash = sha256_hex(b"test");
    for value in [None, Some(""), Some(" \t\n")] {
        let mut session = FetchSession::new(value, "sha256", &hash, &["http://src"]).unwrap();
        let attempt = session.next_attempt().unwrap();
        assert_eq!(attempt.url(), "http://src");
        assert!(attempt.headers().is_empty());
        assert!(session.next_attempt().is_none());
    }
}

#[test]
fn refusals_come_in_order() {
    let none: [&str; 0] = [];
    assert!(matches!(
        FetchSession::with_servers(&none, "md5", "", &none),
        Err(Error::MissingSourceUrls)
    ));
    match FetchSession::with_servers(&none, "MD-5", "", &["http://src"]) {
        Err(Error::UnsupportedAlgorithm(name)) => assert_eq!(name, "md5"),
        _ => panic!("expected UnsupportedAlgorithm"),
    }
    assert!(matches!(
        FetchSession::with_servers(&none, "SHA-1", "", &["http://src"]),
        Err(Error::InvalidHash(_))
    ));
}

#[test]
fn trailing_slashes_of_a_server_are_dropped() {
    let hash = "A".repeat(40);
    for server in ["http://c/x", "http://c/x/", "http://c/x///"] {
        let mut session =
            FetchSession::with_servers(&[server], "SHA-1", &hash, &["http://src"]).unwrap();
        let attempt = session.next_attempt().unwrap();
        assert_eq!(attempt.url(), format!("http://c/x/sha1/{}", "a".repeat(40)));
        assert_eq!(
            attempt.headers(),
            &[("X-Source-Urls".to_string(), "\"http://src\"".to_string())]
        );
    }
}

#[test]
fn sources_keep_a_given_order() {
    let mut session = FetchSession::with_order(
        &["http://c".to_string()],
        "sha1".to_string(),
        "0".repeat(40),
        &["http://a", "http://b"],
        vec!["http://b".to_string(), "http://a".to_string()],
    );
    let first = session.next_attempt().unwrap();
    assert_eq!(first.url(), format!("http://c/sha1/{}", "0".repeat(40)));
    assert_eq!(first.headers()[0].1, r#""http://a", "http://b""#);
    assert_eq!(session.next_attempt().unwrap().url(), "http://b");
    assert_eq!(session.next_attempt().unwrap().url(), "http://a");
    assert!(session.next_attempt().is_none());
    assert!(session.next_attempt().is_none());
}

#[test]
fn sources_are_shuffled_and_none_is_lost() {
    let hash = sha256_hex(b"test");
    let urls: Vec<String> = (0..40).map(|i| format!("http://src{}", i / 2)).collect();
    let mut session =
        FetchSession::with_servers(&[] as &[&str], "sha256", &hash, &urls).unwrap();
    let mut tried: Vec<String> = Vec::new();
    while let Some(attempt) = session.next_attempt() {
        assert!(attempt.headers().is_empty());
        tried.push(attempt.url().to_string());
    }
    assert_ne!(tried, urls);
    let mut expected = urls.clone();
    expected.sort();
    tried.sort();
    assert_eq!(tried, expected);
}

#[test]
fn a_finished_session_stays_finished() {
    let hash = sha256_hex(b"test");
    let mut session =
        FetchSession::with_servers(&["http://c"], "sha256", &hash, &["http://src"]).unwrap();
    session.report_success();
    session.report_partial();
    assert!(session.succeeded());
    for _ in 0..3 {
        assert!(session.next_attempt().is_none());
    }
}

#[test]
fn the_end_of_an_attempt_decides_what_follows() {
    let hash = sha256_hex(b"test");
    let ends = [
        (true, 4, true, false),
        (true, 0, true, false),
        (false, 4, false, false),
        (false, 0, false, true),
    ];
    for (verified, written, succeeded, goes_on) in ends {
        let mut session =
            FetchSession::with_servers(&["http://c"], "sha256", &hash, &["http://src"]).unwrap();
        assert!(session.next_attempt().is_some());
        session.report_end(verified, written);
        assert_eq!(session.succeeded(), succeeded);
        assert_eq!(session.next_attempt().is_some(), goes_on);
    }
}

#[test]
fn attempts_can_be_cloned() {
    let hash = sha256_hex(b"test");
    let mut session =
        FetchSession::with_servers(&["http://c"], "sha256", &hash, &["http://src"]).unwrap();
    let attempt = session.next_attempt().unwrap();
    let copy = attempt.clone();
    assert_eq!(copy.url(), attempt.url());
    assert_eq!(copy.headers(), attempt.headers());
}

#[test]
fn the_verifier_of_a_session_checks_its_hash() {
    let hash = sha256_hex(b"test").to_ascii_uppercase();
    let session =
        FetchSession::with_servers(&["http://c"], "SHA-256", &hash, &["http://src"]).unwrap();

    let mut good: Vec<u8> = Vec::new();
    let mut verifier = session.hash_verifier(&mut good);
    write_all(&mut verifier, b"te");
    write_all(&mut verifier, b"st");
    assert_eq!(verifier.bytes_written(), 4);
    assert!(verifier.finish().is_ok());
    assert_eq!(good, b"test");

    let mut bad: Vec<u8> = Vec::new();
    let mut verifier = session.hash_verifier(&mut bad);
    write_all(&mut verifier, b"tset");
    match verifier.finish() {
        Err(Error::HashMismatch { expected, actual }) => {
            assert_eq!(expected, sha256_hex(b"test"));
            assert_eq!(actual, sha256_hex(b"tset"));
        }
        _ => panic!("expected HashMismatch"),
    }
}

#[test]
fn known_digests_of_each_algorithm() {
    let cases = [
        ("sha1", "a9993e364706816aba3e25717850c26c9cd0d89d"),
        (
            "sha256",
            "ba7816bf8f01cfea414140de5dae2223b00361a396177a9cb410ff61f20015ad",
        ),
        (
            "sha512",
            "ddaf35a193617abacc417349ae20413112e6fa4e89a97ea20a9eeee64b55d39a\
             2192992a274fc1a836ba3c23a3feebbd454d4423643ce80e2a9ac94fa54ca49f",
        ),
    ];
    for (algo, hash) in cases {
        let mut output: Vec<u8> = Vec::new();
        let mut verifier = HashVerifier::new(algo, hash, &mut output);
        write_all(&mut verifier, b"a");
        write_all(&mut verifier, b"");
        write_all(&mut verifier, b"bc");
        assert!(verifier.can_finish());
        assert!(verifier.finish().is_ok());
        assert_eq!(output, b"abc");

        let empty = HashVerifier::new(algo, hash, ());
        match empty.finish() {
            Err(Error::HashMismatch { expected, actual }) => {
                assert_eq!(expected, hash);
                assert_eq!(actual.len(), hash.len());
                assert_ne!(actual, hash);
            }
            _ => panic!("expected HashMismatch"),
        }
    }
}

#[test]
fn only_bytes_that_were_taken_are_hashed() {
    let hash = sha256_hex(b"abcd");
    let mut verifier = HashVerifier::new("sha256", &hash, ());
    let short: Result<usize, u8> = Ok(2);
    assert_eq!(verifier.record_write(b"abXY", short), Ok(2));
    let failed: Result<usize, u8> = Err(7);
    assert_eq!(verifier.record_write(b"cd", failed), Err(7));
    assert_eq!(verifier.bytes_written(), 2);
    let nothing: Result<usize, u8> = Ok(0);
    assert_eq!(verifier.record_write(b"cd", nothing), Ok(0));
    let rest: Result<usize, u8> = Ok(2);
    assert_eq!(verifier.record_write(b"cd", rest), Ok(2));
    assert_eq!(verifier.bytes_written(), 4);
    assert!(verifier.finish().is_ok());
}

#[test]
fn a_digest_is_checked_against_its_hex() {
    use_check(&[0xab, 0x01], "ab01", true);
    use_check(&[0xab, 0x01], "AB01", false);
    use_check(&[0xab, 0x01], "ab0100", false);
    use_check(&[], "", true);
}

fn use_check(digest: &[u8], expected: &str, passes: bool) {
    let r = fetchurl_sdk::hash_verifier::check_digest(digest, expected.to_string());
    match r {
        Ok(()) => assert!(passes),
        Err(Error::HashMismatch { expected: e, actual }) => {
            assert!(!passes);
            assert_eq!(e, expected);
            assert_eq!(actual, to_hex(digest));
        }
        Err(_) => panic!("expected HashMismatch"),
    }
}
