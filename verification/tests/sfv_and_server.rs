//! Public list and `FETCHURL_SERVER` helper coverage.

use fetchurl_sdk::{
    encode_sfv_string_list, encode_source_urls, parse_fetchurl_server, parse_sfv_string_list,
};

#[test]
fn test_sfv_encode() {
    assert_eq!(
        encode_sfv_string_list(&["https://a.com", "https://b.com"]),
        r#""https://a.com", "https://b.com""#
    );
}

#[test]
fn test_sfv_parse() {
    let parsed = parse_sfv_string_list(r#""https://a.com", "https://b.com""#);
    assert_eq!(parsed, vec!["https://a.com", "https://b.com"]);
}

#[test]
fn test_sfv_roundtrip() {
    let urls = &[
        "https://cdn.example.com/file.tar.gz",
        "https://mirror.org/archive.tgz",
    ];
    let encoded = encode_sfv_string_list(urls);
    let decoded = parse_sfv_string_list(&encoded);
    assert_eq!(decoded, urls);
}

#[test]
fn test_sfv_parse_with_parameters() {
    // Parameters should be ignored, only the string value matters
    let parsed = parse_sfv_string_list(r#""https://a.com";q=0.9, "https://b.com""#);
    assert_eq!(parsed, vec!["https://a.com", "https://b.com"]);
}

#[test]
fn parse_fetchurl_server_empty_and_whitespace() {
    assert!(parse_fetchurl_server("").is_empty());
    assert!(parse_fetchurl_server("   ").is_empty());
    assert!(parse_fetchurl_server("\t\n").is_empty());
}

#[test]
fn parse_fetchurl_server_unquoted_single_url() {
    // If the first character is not `"`, the whole value is one server.
    assert_eq!(
        parse_fetchurl_server("http://cache.local:8080/api/fetchurl"),
        vec!["http://cache.local:8080/api/fetchurl"]
    );
    assert_eq!(
        parse_fetchurl_server("  http://cache/api/fetchurl  "),
        vec!["http://cache/api/fetchurl"]
    );
}

#[test]
fn parse_fetchurl_server_quoted_list() {
    assert_eq!(
        parse_fetchurl_server(r#""http://a/api/fetchurl", "http://b/api/fetchurl""#),
        vec!["http://a/api/fetchurl", "http://b/api/fetchurl"]
    );
}

#[test]
fn parse_fetchurl_server_ignores_parameters() {
    assert_eq!(
        parse_fetchurl_server(r#""http://a/api/fetchurl";q=0.9, "http://b/api/fetchurl""#),
        vec!["http://a/api/fetchurl", "http://b/api/fetchurl"]
    );
}

#[test]
fn encode_source_urls_escapes_quotes_and_backslashes() {
    let encoded = encode_source_urls(&[r#"https://ex.com/a"b\c"#]);
    assert_eq!(encoded, r#""https://ex.com/a\"b\\c""#);

    // Round-trip through the same parser used for FETCHURL_SERVER lists.
    assert_eq!(
        parse_fetchurl_server(&encoded),
        vec![r#"https://ex.com/a"b\c"#]
    );
}

#[test]
fn encode_source_urls_roundtrip_multiple() {
    let urls = [
        "https://cdn.example.com/file.tar.gz",
        "https://mirror.org/archive.tgz",
    ];
    let encoded = encode_source_urls(&urls);
    assert_eq!(parse_fetchurl_server(&encoded), urls);
}

#[test]
fn empty_list_is_empty_text() {
    let none: [&str; 0] = [];
    assert_eq!(encode_source_urls(&none), "");
    assert!(parse_sfv_string_list("").is_empty());
    assert_eq!(encode_source_urls(&[""]), "\"\"");
    assert_eq!(parse_sfv_string_list("\"\""), vec![""]);
}

#[test]
fn owned_and_borrowed_urls_encode_alike() {
    let owned: Vec<String> = vec!["http://a".to_string(), "http://b".to_string()];
    assert_eq!(encode_source_urls(&owned), r#""http://a", "http://b""#);
    let borrowed: Vec<&String> = owned.iter().collect();
    assert_eq!(encode_source_urls(&borrowed), r#""http://a", "http://b""#);
}

#[test]
fn every_ascii_text_round_trips() {
    let all: String = (0u8..128).map(|b| b as char).collect();
    let urls = vec![all.clone(), "\\\"".to_string(), "\\".to_string(), all];
    let encoded = encode_source_urls(&urls);
    assert_eq!(parse_sfv_string_list(&encoded), urls);
    assert_eq!(parse_fetchurl_server(&encoded), urls);
}

#[test]
fn other_text_comes_back_as_its_bytes() {
    let encoded = encode_source_urls(&["h\u{e9}"]);
    assert_eq!(encoded, "\"h\u{e9}\"");
    assert_eq!(parse_sfv_string_list(&encoded), vec!["h\u{c3}\u{a9}"]);
}

#[test]
fn unterminated_strings_end_with_the_input() {
    assert_eq!(parse_sfv_string_list("\"abc"), vec!["abc"]);
    assert_eq!(parse_sfv_string_list("\"abc\\"), vec!["abc\\"]);
    assert_eq!(parse_sfv_string_list("\"abc\\\""), vec!["abc\""]);
    assert_eq!(parse_sfv_string_list("\""), vec![""]);
}

#[test]
fn members_that_are_not_strings_are_passed_over() {
    assert_eq!(
        parse_sfv_string_list("token, 12;a=b,\t \"x\" ,,\"y\""),
        vec!["x", "y"]
    );
    assert!(parse_sfv_string_list("token").is_empty());
    assert!(parse_sfv_string_list(" \t ").is_empty());
}

#[test]
fn commas_in_quoted_parameter_values_end_no_member() {
    assert_eq!(parse_sfv_string_list(r#""a";p=",", "b""#), vec!["a", "b"]);
    assert_eq!(parse_fetchurl_server(r#""a";p=",", "b""#), vec!["a", "b"]);
    assert_eq!(
        parse_sfv_string_list(r#""a";p="x\\,\",y";q="z,", "b";r=",""#),
        vec!["a", "b"]
    );
    // Spaces and tabs may stand behind the semicolon and before the comma.
    assert_eq!(
        parse_sfv_string_list("\"a\";  p=\",\" \t, \"b\""),
        vec!["a", "b"]
    );
}

#[test]
fn commas_in_quoted_strings_of_other_members_end_no_member() {
    assert_eq!(parse_sfv_string_list(r#"token;p=",", "b""#), vec!["b"]);
    assert_eq!(parse_sfv_string_list(r#"("x,y" "z"), "b""#), vec!["b"]);
    assert_eq!(parse_sfv_string_list(r#"("x," "y"), "b""#), vec!["b"]);
    assert_eq!(
        parse_sfv_string_list(r#"(  "x," tok;k=";,)" 1 );p=",", "b""#),
        vec!["b"]
    );
    assert_eq!(parse_sfv_string_list(r#"();p=",", "b""#), vec!["b"]);
}

#[test]
fn parameters_of_every_kind_are_ignored() {
    for value in [
        "*to/k:en!", "Tok", "0", "-123456789012345", "123456789012.345", "-0.1", ":YQ==:", "::",
        "?0", "?1", r#""""#, r#""\\\"""#,
    ] {
        let input = format!(r#""a";*k-1_.z={value};p=",";flag, "b""#);
        assert_eq!(parse_sfv_string_list(&input), vec!["a", "b"], "{value}");
    }
}

#[test]
fn malformed_parameters_end_at_the_first_comma() {
    for value in [
        "", "-", "1234567890123456", "1.", "1.2345", "1234567890123.4", "1x", ":YQ==", ":Y-:",
        "?2", "?", "!tok", "tok tok", "(1)", r#""\x""#, "\"\u{7f}\"", "\"\u{e9}\"", r#""x"y"#,
    ] {
        let input = format!(r#""a";q={value};p=",", "b""#);
        assert_eq!(parse_sfv_string_list(&input), vec!["a", ", "], "{value}");
    }
    for parameters in [";P=1", ";", ";1", " ;k", "x", "=1"] {
        let input = format!(r#""a"{parameters};p=",", "b""#);
        assert_eq!(parse_sfv_string_list(&input), vec!["a", ", "], "{parameters}");
    }
    // A well-formed part must reach to the comma.
    assert_eq!(parse_sfv_string_list(r#""a";p=","x, "b""#), vec!["a", "x, "]);
}

#[test]
fn malformed_inner_lists_end_at_the_first_comma() {
    assert_eq!(parse_sfv_string_list(r#"("x,"tok), "b""#), vec!["tok), "]);
    assert_eq!(parse_sfv_string_list(r#"("x,", "b""#), vec![", "]);
    assert_eq!(parse_sfv_string_list(r#"(("x,")), "b""#), vec![")), "]);
}

#[test]
fn stray_quotes_open_no_string() {
    assert_eq!(parse_sfv_string_list(r#"x"y, "b""#), vec!["b"]);
    assert_eq!(
        parse_sfv_string_list(r#""http://a", http://b", "http://c""#),
        vec!["http://a", "http://c"]
    );
    assert_eq!(
        parse_fetchurl_server(r#""http://a", http://b", "http://c""#),
        vec!["http://a", "http://c"]
    );
    assert_eq!(parse_sfv_string_list(r#""a"", "b""#), vec!["a", "b"]);
    assert_eq!(parse_sfv_string_list(r#""a" ", "b""#), vec!["a", "b"]);
    assert_eq!(parse_sfv_string_list(r#""a";p="x, "b""#), vec!["a", "b"]);
    assert_eq!(parse_sfv_string_list(r#"http://a?x="y, "b""#), vec!["b"]);
    assert_eq!(parse_sfv_string_list(r#"("x, "b""#), vec!["b"]);
    assert_eq!(parse_sfv_string_list(r#""a" "x,", "b""#), vec!["a", ", "]);
}

#[test]
fn escapes_make_any_character_literal() {
    assert_eq!(parse_sfv_string_list("\"a\\bc\\,d\", \"e\""), vec!["abc,d", "e"]);
}

#[test]
fn blank_values_are_those_of_white_space() {
    for u in 0u32..=0x10ffff {
        if let Some(c) = char::from_u32(u) {
            if c == '"' {
                continue;
            }
            let value: String = [c, 'x', c].iter().collect();
            let parsed = parse_fetchurl_server(&value);
            let expected = if c.is_whitespace() { "x".to_string() } else { value };
            assert_eq!(parsed, vec![expected]);
        }
    }
}

#[test]
fn inner_white_space_stays() {
    assert_eq!(parse_fetchurl_server(" a b\u{3000}c\n"), vec!["a b\u{3000}c"]);
}
