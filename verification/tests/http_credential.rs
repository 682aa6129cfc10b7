//! Cookies and query strings.
use ppe_core::http_credential::{
    parse_cookie_header, parse_query_string, CredentialParseError, MAX_INPUT_LEN,
};

#[test]
fn cookie_single() {
    let m = parse_cookie_header("session=abc123").unwrap();
    assert_eq!(m.get("session").map(String::as_str), Some("abc123"));
    assert_eq!(m.len(), 1);
}

#[test]
fn cookie_multiple() {
    let m = parse_cookie_header("a=1; b=2; c=3").unwrap();
    assert_eq!(m.get("a").map(String::as_str), Some("1"));
    assert_eq!(m.get("b").map(String::as_str), Some("2"));
    assert_eq!(m.get("c").map(String::as_str), Some("3"));
}

#[test]
fn cookie_trailing_semicolon() {
    let m = parse_cookie_header("a=1;").unwrap();
    assert_eq!(m.get("a").map(String::as_str), Some("1"));
    assert_eq!(m.len(), 1);
}

#[test]
fn cookie_no_value_entry() {
    let m = parse_cookie_header("flag; a=1").unwrap();
    assert_eq!(m.get("flag").map(String::as_str), Some(""));
    assert_eq!(m.get("a").map(String::as_str), Some("1"));
}

#[test]
fn cookie_whitespace_tolerance() {
    let m = parse_cookie_header("a=1;b=2").unwrap();
    assert_eq!(m.get("a").map(String::as_str), Some("1"));
    assert_eq!(m.get("b").map(String::as_str), Some("2"));
}

#[test]
fn cookie_value_containing_equals() {
    let m = parse_cookie_header("jwt=eyJhbGciOiJIUzI1NiJ9.abc.def=extra").unwrap();
    assert_eq!(
        m.get("jwt").map(String::as_str),
        Some("eyJhbGciOiJIUzI1NiJ9.abc.def=extra")
    );
}

#[test]
fn cookie_duplicate_name_errors() {
    let err = parse_cookie_header("a=1; a=2").unwrap_err();
    assert_eq!(
        err,
        CredentialParseError::Duplicate {
            location: "cookie",
            name: "a".into()
        }
    );
}

#[test]
fn cookie_empty_input() {
    let m = parse_cookie_header("").unwrap();
    assert!(m.is_empty());
}

#[test]
fn cookie_too_long_rejected() {
    let raw = format!("a={}", "x".repeat(MAX_INPUT_LEN + 1));
    let err = parse_cookie_header(&raw).unwrap_err();
    assert!(matches!(err, CredentialParseError::TooLong { .. }));
}

#[test]
fn cookie_control_character_rejected() {
    let err = parse_cookie_header("a=1\r\nInjected: header").unwrap_err();
    assert_eq!(
        err,
        CredentialParseError::ControlCharacter { location: "cookie" }
    );
}

#[test]
fn query_single() {
    let m = parse_query_string("access_token=eyJ.abc.def").unwrap();
    assert_eq!(
        m.get("access_token").map(String::as_str),
        Some("eyJ.abc.def")
    );
}

#[test]
fn query_multiple() {
    let m = parse_query_string("a=1&b=2").unwrap();
    assert_eq!(m.get("a").map(String::as_str), Some("1"));
    assert_eq!(m.get("b").map(String::as_str), Some("2"));
}

#[test]
fn query_no_value_param() {
    let m = parse_query_string("flag&a=1").unwrap();
    assert_eq!(m.get("flag").map(String::as_str), Some(""));
    assert_eq!(m.get("a").map(String::as_str), Some("1"));
}

#[test]
fn query_value_containing_equals() {
    let m = parse_query_string("token=abc=def").unwrap();
    assert_eq!(m.get("token").map(String::as_str), Some("abc=def"));
}

#[test]
fn query_duplicate_name_errors() {
    let err = parse_query_string("a=1&a=2").unwrap_err();
    assert_eq!(
        err,
        CredentialParseError::Duplicate {
            location: "query_param",
            name: "a".into()
        }
    );
}

#[test]
fn query_empty_input() {
    let m = parse_query_string("").unwrap();
    assert!(m.is_empty());
}

#[test]
fn query_too_long_rejected() {
    let raw = format!("a={}", "x".repeat(MAX_INPUT_LEN + 1));
    let err = parse_query_string(&raw).unwrap_err();
    assert!(matches!(err, CredentialParseError::TooLong { .. }));
}

#[test]
fn query_control_character_rejected() {
    let err = parse_query_string("a=1%0d%0a\ninjected").unwrap_err();
    assert_eq!(
        err,
        CredentialParseError::ControlCharacter {
            location: "query_param"
        }
    );
}

#[test]
fn the_longest_input_is_still_read() {
    let raw = format!("a={}", "x".repeat(MAX_INPUT_LEN - 2));
    assert_eq!(raw.len(), MAX_INPUT_LEN);
    assert_eq!(parse_query_string(&raw).unwrap().len(), 1);
    let one_more = format!("{raw}x");
    assert_eq!(
        parse_query_string(&one_more).unwrap_err(),
        CredentialParseError::TooLong {
            location: "query_param",
            len: MAX_INPUT_LEN + 1,
            max: MAX_INPUT_LEN
        }
    );
}

#[test]
fn errors_name_the_place_and_what_is_wrong() {
    let e = parse_cookie_header("a=1; a=2").unwrap_err();
    assert!(e.message().contains("cookie"), "{}", e.message());
    assert!(e.message().contains('a'), "{}", e.message());
    let e = parse_query_string("a\0").unwrap_err();
    assert!(e.message().contains("control"), "{}", e.message());
    let e = parse_query_string(&"x".repeat(MAX_INPUT_LEN + 1)).unwrap_err();
    assert!(e.message().contains(&MAX_INPUT_LEN.to_string()), "{}", e.message());
}

#[test]
fn every_pair_is_kept_under_its_own_name() {
    let m = parse_query_string("a=1&A=2&b").unwrap();
    assert_eq!(m.len(), 3);
    assert_eq!(m.get("a").map(String::as_str), Some("1"));
    assert_eq!(m.get("A").map(String::as_str), Some("2"));
    assert_eq!(m.get("b").map(String::as_str), Some(""));
}
