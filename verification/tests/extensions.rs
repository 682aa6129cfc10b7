//! What a request carries: headers, labels, credentials, identities.
use ppe_core::extensions::http_extension::HttpExtension;
use ppe_core::extensions::monotonic::{DeclassifierToken, MonotonicSet};
use ppe_core::extensions::raw_credentials::{
    DelegationKey, DelegationMode, RawCredentialsExtension, RawDelegatedToken, RawInboundToken,
    SecretText, TokenKind, TokenRole,
};
use ppe_core::extensions::security::{
    ClientExtension, ClientTrustLevel, DataPolicy, ObjectSecurityProfile, RetentionPolicy,
    SecurityExtension, SubjectExtension, SubjectType, Timestamp, WorkloadIdentity,
};
use ppe_core::key_set::KeySet;
use ppe_core::value::{Json, KeyMap, Number, TextMap, TextSet};
use std::collections::HashMap;

fn set_of(items: &[&str]) -> TextSet {
    let mut out = TextSet::new();
    for item in items {
        out.insert((*item).to_owned());
    }
    out
}

#[test]
fn test_request_header_set_and_get() {
    let mut http = HttpExtension::default();
    http.set_request_header("Content-Type", "application/json");
    assert_eq!(
        http.get_request_header("Content-Type"),
        Some("application/json")
    );
}

#[test]
fn test_request_header_case_insensitive() {
    let mut http = HttpExtension::default();
    http.set_request_header("Authorization", "Bearer tok");
    assert_eq!(http.get_request_header("authorization"), Some("Bearer tok"));
    assert_eq!(http.get_request_header("AUTHORIZATION"), Some("Bearer tok"));
}

#[test]
fn test_response_header_set_and_get() {
    let mut http = HttpExtension::default();
    http.set_response_header("Content-Type", "text/html");
    assert_eq!(http.get_response_header("Content-Type"), Some("text/html"));
    assert!(http.has_response_header("content-type"));
}

#[test]
fn test_request_and_response_independent() {
    let mut http = HttpExtension::default();
    http.set_request_header("Authorization", "Bearer req-tok");
    http.set_response_header("X-Response-Time", "42ms");
    assert!(http.get_response_header("Authorization").is_none());
    assert!(http.get_request_header("X-Response-Time").is_none());
}

#[test]
fn test_convenience_aliases_default_to_request() {
    let mut http = HttpExtension::default();
    http.set_header("X-Custom", "value");
    assert_eq!(http.get_header("X-Custom"), Some("value"));
    assert!(http.has_header("X-Custom"));
    assert_eq!(http.get_request_header("X-Custom"), Some("value"));
}

#[test]
fn headers_keep_their_order() {
    let mut http = HttpExtension::default();
    http.set_header("A", "1");
    http.add_request_header("B", "2");
    http.set_header("C", "3");
    http.add_request_header("a", "9");
    http.set_header("A", "4");
    let order = |http: &HttpExtension| -> Vec<(String, String)> {
        let h = &http.request_headers;
        (0..h.len()).map(|i| h.entry(i)).map(|(k, v)| (k.clone(), v.clone())).collect()
    };
    let pair = |k: &str, v: &str| (k.to_owned(), v.to_owned());
    assert_eq!(order(&http), [pair("A", "4"), pair("B", "2"), pair("C", "3")]);
    assert_eq!(http.remove_request_header("b").as_deref(), Some("2"));
    assert_eq!(order(&http), [pair("A", "4"), pair("C", "3")]);
}

#[test]
fn test_add_request_header_only_if_absent() {
    let mut http = HttpExtension::default();
    assert!(http.add_request_header("X-New", "first"));
    assert!(!http.add_request_header("X-New", "second"));
    assert_eq!(http.get_request_header("X-New"), Some("first"));
}

#[test]
fn test_remove_request_header() {
    let mut http = HttpExtension::default();
    http.set_request_header("X-Remove", "value");
    let removed = http.remove_request_header("x-remove");
    assert_eq!(removed, Some("value".to_owned()));
    assert!(!http.has_request_header("X-Remove"));
}

#[test]
fn setting_a_header_again_replaces_its_value() {
    let mut http = HttpExtension::default();
    http.set_request_header("X-Trace", "a");
    http.set_request_header("X-Trace", "b");
    assert_eq!(http.get_request_header("x-trace"), Some("b"));
    assert_eq!(http.request_headers.len(), 1);
}

#[test]
fn header_names_are_folded_beyond_ascii() {
    let mut http = HttpExtension::default();
    http.set_request_header("\u{c4}bc", "v");
    assert_eq!(http.get_request_header("\u{e4}BC"), Some("v"));
}

#[test]
fn an_absent_header_is_not_removed() {
    let mut http = HttpExtension::default();
    http.set_request_header("A", "1");
    assert_eq!(http.remove_request_header("B"), None);
    assert_eq!(http.get_request_header("A"), Some("1"));
    assert!(http.status.is_none());
}

#[test]
fn test_monotonic_insert_only() {
    let mut set = MonotonicSet::new();
    set.insert("PII".to_owned());
    set.insert("CONFIDENTIAL".to_owned());
    assert!(set.contains(&"PII".to_owned()));
    assert_eq!(set.len(), 2);
}

#[test]
fn test_monotonic_superset() {
    let mut before = MonotonicSet::new();
    before.insert("PII".to_owned());

    let mut after = before.clone();
    after.insert("HIPAA".to_owned());

    assert!(after.is_superset(&before));
    assert!(!before.is_superset(&after));
}

#[test]
fn test_monotonic_declassifier() {
    let mut set = MonotonicSet::new();
    set.insert("PII".to_owned());

    let token = DeclassifierToken::new();
    assert!(set.remove_with_declassifier(&"PII".to_owned(), &token));
    assert!(!set.contains(&"PII".to_owned()));
}

#[test]
fn test_monotonic_has_label_case_insensitive() {
    let mut set = MonotonicSet::new();
    set.add_label("PII");
    assert!(set.has_label("pii"));
    assert!(set.has_label("PII"));
    assert!(set.has_label("Pii"));
}

#[test]
fn a_set_of_labels_is_listed_once_each() {
    let mut inner: KeySet<String> = KeySet::new();
    assert!(inner.insert("b".to_owned()));
    assert!(inner.insert("a".to_owned()));
    let mut set = MonotonicSet::from_set(inner);
    assert!(!set.insert("a".to_owned()));
    assert!(set.insert("c".to_owned()));
    let mut items: Vec<&String> = set.iter();
    items.sort();
    assert_eq!(items, vec!["a", "b", "c"]);
    assert!(!set.is_empty());
    assert!(MonotonicSet::<String>::new().is_empty());
    assert!(set.as_set().contains(&"b".to_owned()));
    let token = DeclassifierToken::new();
    assert!(!set.remove_with_declassifier(&"z".to_owned(), &token));
    assert_eq!(set.len(), 3);
}

#[test]
fn adding_labels_loses_none() {
    let mut set = MonotonicSet::new();
    set.add_label("PII");
    let before = set.clone();
    set.add_label("HIPAA");
    set.add_label("PII");
    assert!(set.is_superset(&before));
    assert_eq!(set.len(), 2);
}

#[test]
fn a_monotonic_set_holds_any_kind_of_key() {
    let mut set: MonotonicSet<TokenRole> = MonotonicSet::default();
    assert!(set.insert(TokenRole::User));
    assert!(set.insert(TokenRole::Custom("partner".into())));
    assert!(!set.insert(TokenRole::Custom("partner".into())));
    assert!(set.contains(&TokenRole::Custom("partner".into())));
    assert!(!set.contains(&TokenRole::Client));
    assert_eq!(set.len(), 2);
    let token = DeclassifierToken::new();
    assert!(set.remove_with_declassifier(&TokenRole::User, &token));
    assert_eq!(set.iter(), vec![&TokenRole::Custom("partner".into())]);
}

#[test]
fn token_role_custom_is_hashmap_compatible() {
    let mut map: HashMap<TokenRole, &str> = HashMap::new();
    map.insert(TokenRole::Custom("partner".into()), "p");
    assert_eq!(map.get(&TokenRole::Custom("partner".into())), Some(&"p"));
    assert_eq!(map.get(&TokenRole::Custom("other".into())), None);

    let mut own: KeyMap<TokenRole, &str> = KeyMap::new();
    own.insert(TokenRole::Custom("partner".into()), "p");
    assert_eq!(own.get(&TokenRole::Custom("partner".into())), Some(&"p"));
    assert_eq!(own.get(&TokenRole::Custom("other".into())), None);
    assert_eq!(own.get(&TokenRole::User), None);
}

fn scopes(items: &[&str]) -> Vec<String> {
    items.iter().map(|s| (*s).to_owned()).collect()
}

#[test]
fn delegation_key_hash_eq_consistency() {
    let k1 = DelegationKey::new(
        DelegationMode::OnBehalfOfUser,
        "https://api.example.com",
        scopes(&["read", "write"]),
    )
    .with_subject_id("alice");
    let k2 = DelegationKey::new(
        DelegationMode::OnBehalfOfUser,
        "https://api.example.com",
        scopes(&["read", "write"]),
    )
    .with_subject_id("alice");
    assert_eq!(k1, k2);

    let k3 = DelegationKey::new(
        DelegationMode::OnBehalfOfUser,
        "https://api.example.com",
        scopes(&["write", "read"]),
    )
    .with_subject_id("alice");
    assert_ne!(k1, k3);

    let mut own: KeyMap<DelegationKey, u8> = KeyMap::new();
    own.insert(k1, 1);
    assert_eq!(own.get(&k2), Some(&1));
    assert_eq!(own.get(&k3), None);
}

#[test]
fn workload_subject_keys_are_distinct_per_calling_agent() {
    let payroll = DelegationKey::new(
        DelegationMode::AsCallerWorkload,
        "https://hr.example.com",
        scopes(&["read"]),
    )
    .with_workload_id(Some("spiffe://corp/payroll".into()));
    let recruiting = payroll
        .clone()
        .with_workload_id(Some("spiffe://corp/recruiting".into()));
    assert_eq!(payroll.subject_id, "");
    assert_eq!(payroll.client_id, None);
    assert_ne!(
        payroll, recruiting,
        "two agents with no user must not share a cache entry",
    );

    let payroll_again = payroll.clone();
    assert_eq!(payroll, payroll_again);

    let user_only = DelegationKey::new(
        DelegationMode::OnBehalfOfUser,
        "https://hr.example.com",
        scopes(&["read"]),
    )
    .with_subject_id("alice");
    assert_ne!(payroll, user_only);

    let mut own: KeyMap<DelegationKey, u8> = KeyMap::new();
    own.insert(payroll.clone(), 1);
    own.insert(recruiting.clone(), 2);
    assert_eq!(own.get(&payroll), Some(&1));
    assert_eq!(own.get(&recruiting), Some(&2));
    assert_eq!(own.get(&user_only), None);
    assert_eq!(own.get(&payroll.with_client_id(Some("c".into()))), None);
}

#[test]
fn a_secret_is_held_and_not_shown() {
    let secret = SecretText::new("eyJ.tok");
    assert_eq!(secret.expose(), "eyJ.tok");
    assert_eq!(secret.clone().expose(), "eyJ.tok");
    assert!(!format!("{secret:?}").contains("eyJ"));
}

#[test]
fn tokens_carry_what_they_were_made_with() {
    let t = RawInboundToken::new("tok", "Authorization", TokenKind::Jwt);
    assert_eq!(t.token.expose(), "tok");
    assert_eq!(t.source_header, "Authorization");
    assert_eq!(t.kind, TokenKind::Jwt);
    assert_eq!(t.clone().token.expose(), "tok");

    let expires = Timestamp { secs: 17, nanos: 5 };
    let d = RawDelegatedToken::new("out", "X-Token", "aud", scopes(&["a"]), expires);
    assert_eq!(d.token.expose(), "out");
    assert_eq!(d.outbound_header, "X-Token");
    assert_eq!(d.audience, "aud");
    assert_eq!(d.scopes, vec!["a".to_owned()]);
    assert_eq!(d.expires_at, expires);

    let mut c = RawCredentialsExtension::default();
    assert!(c.inbound_tokens.is_empty());
    assert!(c.delegated_tokens.is_empty());
    c.inbound_tokens.insert(TokenRole::User, t);
    let copy = c.clone();
    assert_eq!(
        copy.inbound_tokens.get(&TokenRole::User).unwrap().token.expose(),
        "tok"
    );
    assert!(copy.inbound_tokens.get(&TokenRole::Client).is_none());
    assert!(!format!("{c:?}").contains("\"tok\""));
}

#[test]
fn test_security_labels_monotonic() {
    let mut sec = SecurityExtension::default();
    sec.add_label("PII");
    sec.add_label("HIPAA");
    assert!(sec.has_label("PII"));
    assert!(sec.has_label("pii"));
    assert!(sec.has_label("HIPAA"));
    assert!(!sec.has_label("SOX"));
}

#[test]
fn test_security_classification() {
    let sec = SecurityExtension {
        classification: Some("confidential".into()),
        ..Default::default()
    };
    assert_eq!(sec.classification.as_deref(), Some("confidential"));
}

#[test]
fn test_subject_extension() {
    let mut claims = TextMap::new();
    claims.insert("iss".to_owned(), Json::String("auth.example.com".into()));
    let subject = SubjectExtension {
        id: Some("alice".into()),
        subject_type: Some(SubjectType::User),
        roles: set_of(&["admin", "hr"]),
        permissions: set_of(&["read_all"]),
        teams: set_of(&["engineering"]),
        claims,
    };
    assert_eq!(subject.id.as_deref(), Some("alice"));
    assert_eq!(subject.subject_type, Some(SubjectType::User));
    assert!(subject.roles.contains("admin"));
    assert!(subject.permissions.contains("read_all"));
    assert!(subject.teams.contains("engineering"));
    assert_eq!(
        subject.claims.get("iss"),
        Some(&Json::String("auth.example.com".into()))
    );
}

#[test]
fn test_workload_identity() {
    let w = WorkloadIdentity {
        spiffe_id: Some("spiffe://example.com/ns/team1/sa/weather-tool".into()),
        trust_domain: Some("example.com".into()),
        attestor: Some("spire-agent".into()),
        selectors: vec!["k8s:ns:team1".into(), "k8s:sa:weather-tool".into()],
        client_id: Some("weather-agent".into()),
        ..Default::default()
    };
    assert_eq!(
        w.spiffe_id.as_deref(),
        Some("spiffe://example.com/ns/team1/sa/weather-tool")
    );
    assert_eq!(w.trust_domain.as_deref(), Some("example.com"));
    assert_eq!(w.attestor.as_deref(), Some("spire-agent"));
    assert_eq!(w.selectors.len(), 2);
    assert_eq!(w.client_id.as_deref(), Some("weather-agent"));
    let copy = w.clone();
    assert_eq!(copy.selectors, w.selectors);
}

#[test]
fn test_workload_identity_default() {
    let w = WorkloadIdentity::default();
    assert!(w.spiffe_id.is_none());
    assert!(w.trust_domain.is_none());
    assert!(w.attested_at.is_none());
    assert!(w.attestor.is_none());
    assert!(w.selectors.is_empty());
    assert!(w.client_id.is_none());
}

#[test]
fn test_security_with_this_workload_and_subject() {
    let sec = SecurityExtension {
        labels: {
            let mut l = MonotonicSet::new();
            l.add_label("PII");
            l
        },
        classification: Some("confidential".into()),
        subject: Some(SubjectExtension {
            id: Some("alice".into()),
            subject_type: Some(SubjectType::User),
            ..Default::default()
        }),
        this_workload: Some(WorkloadIdentity {
            spiffe_id: Some("spiffe://corp.com/hr-agent".into()),
            trust_domain: Some("corp.com".into()),
            client_id: Some("hr-agent".into()),
            ..Default::default()
        }),
        auth_method: Some("jwt".into()),
        ..Default::default()
    };
    assert_eq!(sec.subject.as_ref().unwrap().id.as_deref(), Some("alice"));
    assert_eq!(
        sec.this_workload.as_ref().unwrap().client_id.as_deref(),
        Some("hr-agent")
    );
    assert_eq!(
        sec.this_workload.as_ref().unwrap().trust_domain.as_deref(),
        Some("corp.com")
    );
    assert_eq!(sec.auth_method.as_deref(), Some("jwt"));
    assert!(sec.has_label("PII"));
    let copy = sec.clone();
    assert!(copy.has_label("PII"));
    assert_eq!(copy.subject.unwrap().id.as_deref(), Some("alice"));
}

#[test]
fn test_object_security_profile() {
    let profile = ObjectSecurityProfile {
        managed_by: Some("hr-system".into()),
        permissions: vec!["read".into(), "write".into()],
        trust_domain: Some("corp.com".into()),
        data_scope: vec!["employee_data".into()],
    };
    assert_eq!(profile.managed_by.as_deref(), Some("hr-system"));
    assert_eq!(profile.permissions.len(), 2);
}

#[test]
fn test_data_policy() {
    let policy = DataPolicy {
        apply_labels: vec!["PII".into()],
        allowed_actions: Some(vec!["read".into()]),
        denied_actions: vec!["delete".into()],
        retention: Some(RetentionPolicy {
            max_age_seconds: Some(86400),
            policy: "30-day".into(),
            delete_after: Some("2026-05-01".into()),
        }),
    };
    assert_eq!(policy.apply_labels[0], "PII");
    assert!(policy.retention.is_some());
    assert_eq!(
        policy.retention.as_ref().unwrap().max_age_seconds,
        Some(86400)
    );
    let copy = policy.clone();
    assert_eq!(copy.allowed_actions, Some(vec!["read".to_owned()]));
    assert_eq!(copy.retention.unwrap().policy, "30-day");
}

#[test]
fn claim_str_renders_scalars_and_refuses_structure() {
    let mut nested = TextMap::new();
    nested.insert("a".to_owned(), Json::Number(Number::Unsigned(1)));
    let mut subject = SubjectExtension::default();
    subject
        .claims
        .insert("tenant".to_owned(), Json::String("acme".into()));
    subject
        .claims
        .insert("numeric_tenant".to_owned(), Json::Number(Number::Unsigned(42)));
    subject.claims.insert("flag".to_owned(), Json::Bool(true));
    subject
        .claims
        .insert("nested".to_owned(), Json::Object(nested));
    subject.claims.insert(
        "list".to_owned(),
        Json::Array(vec![Json::String("a".into())]),
    );
    subject.claims.insert("nothing".to_owned(), Json::Null);

    assert_eq!(subject.claim_str("tenant").as_deref(), Some("acme"));
    assert_eq!(subject.claim_str("numeric_tenant").as_deref(), Some("42"));
    assert_eq!(subject.claim_str("flag").as_deref(), Some("true"));
    assert!(
        subject.claim_str("nested").is_none(),
        "an object names no single value"
    );
    assert!(
        subject.claim_str("list").is_none(),
        "an array names no single value"
    );
    assert!(subject.claim_str("nothing").is_none());
    assert!(subject.claim_str("absent").is_none());

    subject
        .claims
        .insert("low".to_owned(), Json::Number(Number::Negative(i64::MIN)));
    subject
        .claims
        .insert("half".to_owned(), Json::Number(Number::Other("0.5".into())));
    subject.claims.insert("off".to_owned(), Json::Bool(false));
    assert_eq!(
        subject.claim_str("low").as_deref(),
        Some("-9223372036854775808")
    );
    assert_eq!(subject.claim_str("half").as_deref(), Some("0.5"));
    assert_eq!(subject.claim_str("off").as_deref(), Some("false"));
}

#[test]
fn a_client_is_third_party_until_it_is_said_to_be_more() {
    let c = ClientExtension::default();
    assert_eq!(c.trust_level, ClientTrustLevel::ThirdParty);
    assert_eq!(c.client_id, "");
    assert_eq!(
        ClientTrustLevel::Custom("partner".into()).clone(),
        ClientTrustLevel::Custom("partner".into())
    );
}

#[test]
fn objects_are_equal_whatever_the_order_of_their_keys() {
    let mut a = TextMap::new();
    a.insert("x".to_owned(), Json::Bool(true));
    a.insert("y".to_owned(), Json::Null);
    let mut b = TextMap::new();
    b.insert("y".to_owned(), Json::Null);
    b.insert("x".to_owned(), Json::Bool(true));
    assert_eq!(Json::Object(a.clone()), Json::Object(b.clone()));
    b.insert("z".to_owned(), Json::Null);
    assert_ne!(Json::Object(a), Json::Object(b));
    assert_ne!(
        Json::Number(Number::Unsigned(1)),
        Json::Number(Number::Negative(-1))
    );
}

#[test]
fn what_is_written_out_holds_no_secret() {
    let mut creds = RawCredentialsExtension::default();
    creds.inbound_tokens.insert(
        TokenRole::Custom("partner".into()),
        RawInboundToken::new("secret-a", "X-Partner", TokenKind::Opaque),
    );
    let key = DelegationKey::new(DelegationMode::AsClient, "api", vec!["read".to_owned()])
        .with_client_id(Some("c1".to_owned()));
    let at = Timestamp { secs: 7, nanos: 0 };
    creds.delegated_tokens.insert(
        key.clone(),
        RawDelegatedToken::new("secret-b", "Authorization", "api", vec!["read".to_owned()], at),
    );
    let out = creds.without_secrets();
    let inbound = out
        .inbound_tokens
        .get(&TokenRole::Custom("partner".into()))
        .expect("the role stays");
    assert_eq!(inbound.token.expose(), "");
    assert_eq!(inbound.source_header, "X-Partner");
    assert_eq!(inbound.kind, TokenKind::Opaque);
    let delegated = out.delegated_tokens.get(&key).expect("the key stays");
    assert_eq!(delegated.token.expose(), "");
    assert_eq!(delegated.outbound_header, "Authorization");
    assert_eq!(delegated.audience, "api");
    assert_eq!(delegated.scopes, ["read"]);
    assert_eq!(delegated.expires_at, at);
    assert_eq!((out.inbound_tokens.len(), out.delegated_tokens.len()), (1, 1));
    assert_eq!(out.delegated_tokens.entry(0).0, &key);
    assert!(!format!("{out:?}").contains("secret"));
}
