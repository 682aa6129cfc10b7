//! Paths into a record of claims.
use ppe_core::documents::json_of;
use ppe_core::identity::mapping::claim_path::ClaimPath;
use ppe_core::value::{Json, Number, TextMap};

fn json(text: &str) -> Json {
    json_of(&serde_json::from_str(text).unwrap())
}

fn claims(v: Json) -> TextMap<Json> {
    match v {
        Json::Object(map) => map,
        other => panic!("not an object: {other:?}"),
    }
}

fn parse(input: &str) -> ClaimPath {
    ClaimPath::parse(input).unwrap_or_else(|e| panic!("'{input}' should parse: {e}"))
}

fn segments(input: &str) -> Vec<String> {
    parse(input).segments().to_vec()
}

#[test]
fn a_single_segment_resolves_a_top_level_claim() {
    let claims = claims(json(r##"{"sub": "alice"}"##));
    assert_eq!(parse("sub").resolve(&claims), Some(&json(r##""alice""##)));
}

#[test]
fn a_dotted_path_traverses_into_a_nested_object() {
    let claims = claims(json(r#"{"realm_access": {"roles": ["admin", "hr"]}}"#));
    assert_eq!(
        parse("realm_access.roles").resolve(&claims),
        Some(&json(r##"["admin", "hr"]"##)),
    );
}

#[test]
fn a_three_deep_path_resolves() {
    let claims = claims(json(r##"{"a": {"b": {"c": "deep"}}}"##));
    assert_eq!(parse("a.b.c").resolve(&claims), Some(&json(r##""deep""##)));
}

#[test]
fn a_colon_is_a_literal_and_needs_no_escape() {
    assert_eq!(segments("cognito:groups"), vec!["cognito:groups"]);
    let claims = claims(json(r##"{"cognito:groups": ["eng"]}"##));
    assert_eq!(
        parse("cognito:groups").resolve(&claims),
        Some(&json(r##"["eng"]"##)),
    );
}

#[test]
fn an_escaped_url_claim_name_is_one_segment() {
    let authored = "https://my-app\\.example\\.com/roles";
    assert_eq!(segments(authored), vec!["https://my-app.example.com/roles"],);
    let claims = claims(json(r##"{"https://my-app.example.com/roles": ["editor"]}"##));
    assert_eq!(parse(authored).resolve(&claims), Some(&json(r##"["editor"]"##)));
}

#[test]
fn a_url_claim_name_with_no_path_segment_resolves() {
    let authored = "https://namespace\\.exampleco\\.com";
    let claims = claims(json(r##"{"https://namespace.exampleco.com": "value"}"##));
    assert_eq!(parse(authored).resolve(&claims), Some(&json(r##""value""##)));
}

#[test]
fn a_doubled_backslash_is_one_literal_backslash() {
    assert_eq!(segments("a\\\\b"), vec!["a\\b"]);
    let claims = claims(json(r##"{"a\\b": 1}"##));
    assert_eq!(parse("a\\\\b").resolve(&claims), Some(&json(r##"1"##)));
}

#[test]
fn an_escaped_dot_and_traversal_combine_in_one_path() {
    let authored = "kubernetes\\.io.serviceaccount.name";
    assert_eq!(
        segments(authored),
        vec!["kubernetes.io", "serviceaccount", "name"],
    );
    let claims = claims(json(r##"{ "sub": "system:serviceaccount:default:agent", "kubernetes.io": { "namespace": "default", "serviceaccount": {"name": "agent", "uid": "b3c1"} } }"##));
    assert_eq!(parse(authored).resolve(&claims), Some(&json(r##""agent""##)));
}

#[test]
fn non_separator_characters_need_no_escaping() {
    let claims = claims(json(r##"{ "cognito:groups": ["eng"], "custom:department": "platform", "allowed-origins": ["https://app.example"], "trusted-certs": [], "cnf": {"x5t#S256": "abc123"} }"##));
    assert_eq!(
        parse("custom:department").resolve(&claims),
        Some(&json(r##""platform""##)),
    );
    assert_eq!(
        parse("allowed-origins").resolve(&claims),
        Some(&json(r##"["https://app.example"]"##)),
    );
    assert_eq!(parse("trusted-certs").resolve(&claims), Some(&json(r##"[]"##)));
    assert_eq!(
        parse("cnf.x5t#S256").resolve(&claims),
        Some(&json(r##""abc123""##)),
    );
}

#[test]
fn an_unmatched_first_segment_resolves_to_none() {
    let claims = claims(json(r##"{"sub": "alice"}"##));
    assert!(parse("roles").resolve(&claims).is_none());
}

#[test]
fn a_path_crossing_a_scalar_resolves_to_none() {
    let claims = claims(json(r##"{"sub": "alice"}"##));
    assert!(parse("sub.x").resolve(&claims).is_none());
}

#[test]
fn a_path_into_an_array_resolves_to_none() {
    let claims = claims(json(r##"{"roles": ["admin"]}"##));
    assert!(parse("roles.0").resolve(&claims).is_none());
}

#[test]
fn a_null_claim_resolves_to_null_rather_than_absent() {
    let claims = claims(json(r##"{"teams": null}"##));
    assert_eq!(parse("teams").resolve(&claims), Some(&Json::Null));
}

#[test]
fn a_trailing_lone_escape_is_rejected() {
    let err = ClaimPath::parse("roles\\").expect_err("a trailing `\\` escapes nothing");
    assert!(err.contains("roles\\"), "message must echo the path: {err}");
    assert!(err.contains("trailing"), "{err}");
}

#[test]
fn an_unrecognized_escape_is_rejected_and_named() {
    let err = ClaimPath::parse("roles\\x").expect_err("`\\x` is not an escape");
    assert!(err.contains("\\x"), "message must name the escape: {err}");
}

#[test]
fn an_escaped_colon_is_rejected_because_a_colon_is_already_a_literal() {
    let err = ClaimPath::parse("https\\://my-app\\.example\\.com/roles")
        .expect_err("`\\:` is not an escape");
    assert!(err.contains("\\:"), "message must name the escape: {err}");
}

#[test]
fn an_empty_path_is_rejected() {
    let err = ClaimPath::parse("").expect_err("an empty path addresses nothing");
    assert!(err.contains("empty"), "{err}");
}

#[test]
fn an_empty_segment_is_rejected_wherever_it_appears() {
    for input in ["a..b", ".a", "a."] {
        let err = ClaimPath::parse(input)
            .expect_err("a path with an empty segment addresses nothing");
        assert!(
            err.contains("empty segment"),
            "'{input}' must be rejected as an empty segment, got: {err}"
        );
    }
}

#[test]
fn display_round_trips_every_accepted_path() {
    for authored in [
        "sub",
        "realm_access.roles",
        "a.b.c",
        "cognito:groups",
        "custom:department",
        "allowed-origins",
        "cnf.x5t#S256",
        "https://my-app\\.example\\.com/roles",
        "https://namespace\\.exampleco\\.com",
        "a\\\\b",
        "kubernetes\\.io.serviceaccount.name",
    ] {
        assert_eq!(parse(authored).authored(), authored);
    }
}

#[test]
fn single_segment_distinguishes_a_consumed_claim_from_a_traversed_one() {
    assert_eq!(parse("roles").single_segment(), Some("roles"));
    assert_eq!(
        parse("https://my-app\\.example\\.com/roles").single_segment(),
        Some("https://my-app.example.com/roles"),
    );
    assert!(parse("realm_access.roles").single_segment().is_none());
}

#[test]
fn what_is_rendered_parses_to_the_same_segments() {
    for authored in ["a\\.b.c\\\\d", "x", "a.b"] {
        let path = parse(authored);
        assert_eq!(parse(&path.authored()), path);
        assert_eq!(path.authored(), authored);
    }
}
