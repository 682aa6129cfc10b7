//! Paths, as they are matched.
use ppe_core::http_path::{is_traversal_segment, normalize_match_path, rewrite, PathError};
use std::borrow::Cow;

fn normalized(raw: &str) -> String {
    normalize_match_path(raw)
        .expect("a readable path")
        .into_owned()
}

#[test]
fn a_normal_path_is_borrowed_and_allocates_nothing() {
    for raw in ["/", "/v1/files", "/v1/files/q3.pdf", "/api/", "/a/..config"] {
        let result = normalize_match_path(raw).expect("a readable path");
        assert!(
            matches!(result, Cow::Borrowed(_)),
            "{raw} is already normal and must not allocate"
        );
        assert_eq!(&*result, raw, "{raw} must come back unchanged");
    }
}

#[test]
fn the_query_and_the_fragment_are_removed() {
    assert_eq!(
        normalized("/a/b?x=1"),
        "/a/b",
        "a query is not part of the path"
    );
    assert_eq!(
        normalized("/a/b#frag"),
        "/a/b",
        "a fragment is not part of the path"
    );
    assert_eq!(
        normalized("/a/b?x=1#frag"),
        "/a/b",
        "a query and a fragment together are both removed"
    );
    assert_eq!(
        normalized("/a/b#frag?x=1"),
        "/a/b",
        "a query inside a fragment is removed with it"
    );
    assert_eq!(normalized("/?x=1"), "/", "a root path keeps its root");
}

#[test]
fn a_query_or_a_fragment_is_stripped_by_borrowing() {
    for (raw, expected) in [
        ("/v1/files/q3.pdf?page=2", "/v1/files/q3.pdf"),
        ("/v1/files/q3.pdf#page-2", "/v1/files/q3.pdf"),
        ("/v1/files/q3.pdf?page=2#top", "/v1/files/q3.pdf"),
        ("/?x=1", "/"),
    ] {
        let result = normalize_match_path(raw).expect("a readable path");
        assert!(
            matches!(result, Cow::Borrowed(_)),
            "{raw} needs no rewriting once its query and fragment are gone"
        );
        assert_eq!(&*result, expected, "{raw} must normalize to `{expected}`");
    }

    let result = normalize_match_path("/a//b?x=1").expect("a readable path");
    assert!(
        matches!(result, Cow::Owned(_)),
        "a path needing a rewrite is owned however its query reads"
    );
    assert_eq!(&*result, "/a/b", "the rewrite still runs on the path alone");
}

#[test]
fn semicolon_path_parameters_are_removed() {
    assert_eq!(
        normalized("/v1/files;jsessionid=abc/q3.pdf"),
        "/v1/files/q3.pdf",
        "a session parameter must not defeat an exact-path selector"
    );
    assert_eq!(normalized("/a;p"), "/a", "a trailing parameter is removed");
    assert_eq!(
        normalized("/admin;x/secret"),
        "/admin/secret",
        "a parameter on an ordinary segment is still stripped, which reads \
         the deeper path and so is the conservative direction"
    );
    assert_eq!(
        normalized("/;p"),
        "/",
        "a parameter on the only segment leaves the root"
    );
}

#[test]
fn a_parameter_on_a_traversal_segment_is_refused() {
    for raw in [
        "/admin/..;x/public",
        "/admin/..;/public",
        "/admin/%2e%2e;x/public",
        "/admin/%2E%2E;x/public",
        "/admin/.%2e;x/public",
        "/admin/%2e.;x/public",
    ] {
        assert_eq!(
            normalize_match_path(raw),
            Err(PathError::ParameterizedTraversal { index: 7 }),
            "{raw} hides a traversal behind a path parameter"
        );
    }
    assert!(
        PathError::ParameterizedTraversal { index: 7 }
            .message()
            .contains("parameter"),
        "the message must say what was wrong"
    );
}

#[test]
fn a_traversal_segment_with_no_parameter_still_resolves() {
    assert_eq!(
        normalized("/admin/../public"),
        "/public",
        "a bare traversal resolves"
    );
    assert_eq!(
        normalized("/admin/%2e%2e/public"),
        "/public",
        "a bare encoded traversal resolves"
    );
    assert_eq!(
        normalized("/admin/..%2e;x/public"),
        "/admin/..%2e/public",
        "three dots are an ordinary name, so its parameter is merely stripped"
    );
}

#[test]
fn duplicate_slashes_and_dot_segments_resolve() {
    assert_eq!(normalized("//a//b"), "/a/b", "repeated slashes collapse");
    assert_eq!(normalized("/a/./b"), "/a/b", "a dot segment is dropped");
    assert_eq!(normalized("/a/c/../b"), "/a/b", "a dot-dot segment pops");
}

#[test]
fn encoded_and_literal_traversal_resolve_the_same_way() {
    for raw in [
        "/v1/files/%2e%2e/%2e%2e/admin",
        "/v1/files/../../admin",
        "/v1/files/.%2e/%2E./admin",
    ] {
        assert_eq!(
            normalized(raw),
            "/admin",
            "{raw} must resolve out of /v1/files, so it cannot match that prefix"
        );
    }
}

#[test]
fn an_encoded_separator_stays_inside_its_segment() {
    let raw = "/admin/x/..%2f..%2fv1%2fok";
    let result = normalize_match_path(raw).expect("a readable path");
    assert!(
        matches!(result, Cow::Borrowed(_)),
        "an encoded separator needs no rewriting"
    );
    assert_eq!(&*result, raw, "the path must stay under /admin, verbatim");
    assert_ne!(
        &*result, "/v1/ok",
        "an encoded separator must never become a separator"
    );
}

#[test]
fn no_charset_rule_is_applied() {
    for raw in ["/files/caf%E9.pdf", "/files/caf%e9.pdf", "/files/café.pdf"] {
        let result = normalize_match_path(raw).expect("a readable path");
        assert!(
            matches!(result, Cow::Borrowed(_)),
            "{raw} needs no rewriting"
        );
        assert_eq!(&*result, raw, "{raw} must pass through untouched");
    }
}

#[test]
fn a_malformed_escape_names_its_cause() {
    assert_eq!(
        normalize_match_path("/a/%zz"),
        Err(PathError::InvalidEscape { index: 3 }),
        "a non-hex escape is refused"
    );
    assert_eq!(
        normalize_match_path("/a%"),
        Err(PathError::TruncatedEscape { index: 2 }),
        "a trailing percent sign is refused"
    );
    assert_eq!(
        normalize_match_path("/a%2"),
        Err(PathError::TruncatedEscape { index: 2 }),
        "a one-digit escape is refused"
    );
    assert!(
        PathError::InvalidEscape { index: 3 }
            .message()
            .contains("hex"),
        "the message must say what was wrong"
    );
    assert!(
        PathError::TruncatedEscape { index: 2 }
            .message()
            .contains("truncated"),
        "the message must say what was wrong"
    );
}

#[test]
fn a_raw_control_character_is_refused() {
    assert_eq!(
        normalize_match_path("/a\u{7}b"),
        Err(PathError::ControlCharacter { index: 2, byte: 7 }),
        "a bell is not a path character"
    );
    assert_eq!(
        normalize_match_path("/a\rb"),
        Err(PathError::ControlCharacter {
            index: 2,
            byte: b'\r'
        }),
        "a carriage return is a smuggling signal"
    );
    assert_eq!(
        normalize_match_path("/a\u{7f}"),
        Err(PathError::ControlCharacter {
            index: 2,
            byte: 0x7f
        }),
        "delete is a control character too"
    );
    assert!(
        PathError::ControlCharacter { index: 2, byte: 7 }
            .message()
            .contains("control"),
        "the message must say what was wrong"
    );
}

#[test]
fn a_control_character_outranks_a_bad_escape() {
    assert_eq!(
        normalize_match_path("/a\n/%zz"),
        Err(PathError::ControlCharacter {
            index: 2,
            byte: b'\n'
        }),
        "the request line is judged before the path is read"
    );
}

#[test]
fn a_bad_escape_in_the_query_is_not_the_paths_problem() {
    assert_eq!(
        normalized("/checkout?discount=50%"),
        "/checkout",
        "the query is discarded before escapes are judged"
    );
}

#[test]
fn traversal_past_the_root_clamps_to_the_root() {
    for raw in ["/../../..", "/..", "/a/../../..", "///"] {
        assert_eq!(
            normalized(raw),
            "/",
            "{raw} must clamp to the root, not fail"
        );
    }
}

#[test]
fn a_path_that_is_not_absolute_is_returned_as_given() {
    for raw in ["*", "", "no-slash", "a/../b"] {
        let result = normalize_match_path(raw).expect("a readable path");
        assert!(
            matches!(result, Cow::Borrowed(_)),
            "{raw} must not allocate"
        );
        assert_eq!(&*result, raw, "{raw} must come back exactly as given");
        assert!(
            !result.starts_with('/'),
            "{raw} must stay distinguishable from a normalized absolute path"
        );
    }
}

#[test]
fn a_trailing_slash_is_preserved_as_the_gateway_preserves_it() {
    assert_eq!(normalized("/a/"), "/a/", "a trailing slash survives");
    assert_eq!(
        normalized("/a//"),
        "/a",
        "a doubled trailing slash does not"
    );
}

#[test]
fn only_a_segment_of_exactly_two_dots_is_a_traversal() {
    assert!(is_traversal_segment(".."), "literal dot-dot");
    assert!(is_traversal_segment("%2e%2e"), "fully encoded");
    assert!(is_traversal_segment("%2E%2E"), "uppercase encoded");
    assert!(is_traversal_segment(".%2e"), "dot then encoded dot");
    assert!(is_traversal_segment("%2e."), "encoded dot then dot");
    assert!(
        !is_traversal_segment("."),
        "a single dot is not a traversal"
    );
    assert!(
        !is_traversal_segment("..config"),
        "a name beginning with dots is not"
    );
    assert!(
        !is_traversal_segment("%2e%2e%2e"),
        "three encoded dots are not"
    );
    assert!(
        !is_traversal_segment("..%2f"),
        "an encoded separator does not extend it"
    );
    assert!(!is_traversal_segment("%2"), "a truncated escape is not");
    assert!(!is_traversal_segment(".%"), "a bare percent sign is not");
}

#[test]
fn the_mirrored_gateway_rewrite_agrees_case_for_case() {
    let corpus = [
        ("/a/b/c", "/a/b/c"),
        ("/", "/"),
        ("/a/../b", "/b"),
        ("/a/./b", "/a/b"),
        ("/a//b", "/a/b"),
        ("/a///b", "/a/b"),
        ("/../../../etc/passwd", "/etc/passwd"),
        ("/a/../../..", "/"),
        ("/a/b/..", "/a"),
        ("/a/b/.", "/a/b"),
        ("/a/.", "/a"),
        ("/a//../b//c/../d", "/b/d"),
        ("/..", "/"),
        ("///", "/"),
        ("/a/%2e%2e/b", "/b"),
        ("/a/%2E%2E/b", "/b"),
        ("/a/.%2e/b", "/b"),
        ("/a/%2e./b", "/b"),
        ("/a%2fb", "/a%2fb"),
        ("/a/..config", "/a/..config"),
        ("/a/%2e%2e%2e", "/a/%2e%2e%2e"),
    ];
    for (raw, expected) in corpus {
        assert_eq!(
            normalized(raw),
            expected,
            "{raw} must normalize the way the gateway normalizes it"
        );
    }
    let long = format!("/a/{}", "%2e".repeat(258));
    assert_eq!(
        normalized(&long),
        long,
        "a long encoded dot segment is an ordinary name"
    );
}

#[test]
fn reading_a_path_twice_is_reading_it_once() {
    for raw in ["/a//b/../c;x", "/%2e%2e/a/", "/a/./b//", "///"] {
        let once = normalized(raw);
        assert_eq!(normalized(&once), once, "{raw}");
    }
}

#[test]
fn a_dot_with_a_parameter_is_dropped() {
    assert_eq!(normalized("/a/.;x/b"), "/a/b");
}

#[test]
fn what_ends_a_path_is_added_to_what_stands_before_it() {
    assert_eq!(normalized("/x/../a"), "/a");
    assert_eq!(normalized("/x/../a/"), "/a", "a slash at the end changes nothing");
    assert_eq!(normalized("/x/../a/."), "/a", "a dot behind it changes nothing");
    assert_eq!(normalized("/x/../a/.."), "/", "two dots take the last segment away");
    assert_eq!(normalized("/x/../a/%2E%2e"), "/");
    assert_eq!(normalized("/x/../a/../.."), "/", "there is no way past the root");
    assert_eq!(normalized("/x/../a/b/.."), "/a");
    assert_eq!(normalized("/x/../a/b"), "/a/b", "a name is kept behind the rest");
    assert_eq!(normalized("/x/../b"), "/b");
}

#[test]
fn rewriting_drops_what_ends_a_path_or_adds_it() {
    for (path, out) in [
        ("/a/b", "/a/b"),
        ("/a/b/", "/a/b"),
        ("/a/b/.", "/a/b"),
        ("/a/b/..", "/a"),
        ("/a/b/%2e%2e", "/a"),
        ("/a/..", "/"),
        ("/a/b/c", "/a/b/c"),
        ("/a/b/c;x=1", "/a/b/c"),
        ("/", "/"),
        ("/c", "/c"),
    ] {
        assert_eq!(rewrite(path).as_deref(), Ok(out), "{path}");
    }
    assert_eq!(rewrite("/a/..;x"), Err(PathError::ParameterizedTraversal { index: 3 }));
}

#[test]
fn segments_keep_their_order() {
    let out = normalized("/d/../c;v=1//b/./a%2f/x/%2e.");
    let found: Vec<&str> = out.split('/').filter(|s| !s.is_empty()).collect();
    assert_eq!(found, ["c", "b", "a%2f"]);
}
