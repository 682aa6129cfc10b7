//! What the identity chain resolves, and where it goes.
use ppe_core::extensions::container::{DelegationExtension, Extensions};
use ppe_core::extensions::raw_credentials::{
    RawCredentialsExtension, RawInboundToken, TokenKind, TokenRole,
};
use ppe_core::extensions::security::{
    ClientExtension, SecurityExtension, SubjectExtension, Timestamp, WorkloadIdentity,
};
use ppe_core::identity::mapping::{is_spiffe_id, trust_domain_of, ClaimMapper};
use ppe_core::identity::payload::{IdentityPayload, TokenSource};
use ppe_core::value::{Json, TextMap};
use std::sync::Arc;

#[test]
fn input_builders_chain() {
    let mut h = TextMap::new();
    h.insert("user-agent".to_owned(), "curl/8.0".to_owned());
    let p = IdentityPayload::new("tok", TokenSource::Bearer)
        .with_source_header("Authorization")
        .with_headers(h)
        .with_client_host("10.0.0.1")
        .with_client_port(443);
    assert_eq!(p.raw_token(), "tok");
    assert_eq!(p.source_header(), Some("Authorization"));
    assert_eq!(p.client_host(), Some("10.0.0.1"));
    assert_eq!(p.client_port(), Some(443));
    assert_eq!(
        p.headers().get("user-agent").map(String::as_str),
        Some("curl/8.0")
    );
}

#[test]
fn raw_query_string_builder_and_getter() {
    let p = IdentityPayload::new("tok", TokenSource::Bearer)
        .with_raw_query_string("access_token=eyJ.fake.jwt");
    assert_eq!(p.raw_query_string(), Some("access_token=eyJ.fake.jwt"));
}

#[test]
fn raw_query_string_absent_by_default() {
    let p = IdentityPayload::new("tok", TokenSource::Bearer);
    assert_eq!(p.raw_query_string(), None);
}

#[test]
fn debug_output_redacts_raw_token_and_raw_query_string() {
    let p = IdentityPayload::new("eyJ.super-secret-bearer-token.sig", TokenSource::Bearer)
        .with_raw_query_string("access_token=super-secret-query-value");
    let debug = format!("{:?}", p.diagnostics());
    assert!(
        !debug.contains("super-secret-bearer-token"),
        "raw_token leaked into Debug output: {debug}"
    );
    assert!(
        !debug.contains("super-secret-query-value"),
        "raw_query_string leaked into Debug output: {debug}"
    );
    assert!(debug.contains("<redacted>"));
}

#[test]
fn debug_output_shows_whether_raw_query_string_was_present() {
    let with_qs = IdentityPayload::new("tok", TokenSource::Bearer)
        .with_raw_query_string("access_token=secret");
    let without_qs = IdentityPayload::new("tok", TokenSource::Bearer);
    assert!(format!("{:?}", with_qs.diagnostics()).contains(r#"raw_query_string: Some("<redacted>")"#));
    assert!(format!("{:?}", without_qs.diagnostics()).contains("raw_query_string: None"));
}

#[test]
fn handler_can_populate_output_on_clone() {
    let original = IdentityPayload::new("eyJ.tok", TokenSource::Bearer);
    let mut updated = original.clone();
    updated.subject = Some(SubjectExtension {
        id: Some("alice".into()),
        ..Default::default()
    });
    assert_eq!(updated.raw_token(), "eyJ.tok"); // input preserved
    assert_eq!(
        updated.subject.as_ref().unwrap().id.as_deref(),
        Some("alice")
    );
    assert!(original.subject.is_none());
}

#[test]
fn merge_overlays_some_onto_none() {
    let mut base = IdentityPayload::new("tok", TokenSource::Bearer);
    base.subject = Some(SubjectExtension {
        id: Some("alice".into()),
        ..Default::default()
    });
    let mut overlay = IdentityPayload::new("tok", TokenSource::Bearer);
    overlay.caller_workload = Some(WorkloadIdentity {
        spiffe_id: Some("spiffe://corp.com/inbound".into()),
        ..Default::default()
    });
    base.merge(overlay);
    assert_eq!(base.subject.as_ref().unwrap().id.as_deref(), Some("alice"));
    assert!(base.caller_workload.is_some());
}

#[test]
fn a_later_contribution_wins_slot_by_slot() {
    let mut base = IdentityPayload::new("tok", TokenSource::Mtls);
    base.subject = Some(SubjectExtension { id: Some("alice".into()), ..Default::default() });
    base.raw_claims.insert("a".to_owned(), Json::Bool(true));
    base.raw_claims.insert("b".to_owned(), Json::Null);
    let mut overlay = IdentityPayload::new("other", TokenSource::ApiKey);
    overlay.subject = Some(SubjectExtension { id: Some("bob".into()), ..Default::default() });
    overlay.client = Some(ClientExtension { client_id: "c".into(), ..Default::default() });
    overlay.delegation = Some(DelegationExtension { chain: vec!["x".into()] });
    overlay.resolved_at = Some(Timestamp { secs: 1, nanos: 2 });
    overlay.raw_claims.insert("b".to_owned(), Json::Bool(false));
    base.merge(overlay);
    assert_eq!(base.subject.as_ref().unwrap().id.as_deref(), Some("bob"));
    assert_eq!(base.client.as_ref().unwrap().client_id, "c");
    assert_eq!(base.delegation.as_ref().unwrap().chain, vec!["x".to_owned()]);
    assert_eq!(base.resolved_at, Some(Timestamp { secs: 1, nanos: 2 }));
    assert_eq!(base.raw_claims.get("a"), Some(&Json::Bool(true)));
    assert_eq!(base.raw_claims.get("b"), Some(&Json::Bool(false)));
    assert_eq!(base.raw_token(), "tok");
    assert_eq!(base.source(), &TokenSource::Mtls);
}

#[test]
fn applying_an_identity_keeps_labels_and_replaces_credentials() {
    let mut sec = SecurityExtension::default();
    sec.add_label("PII");
    sec.classification = Some("internal".into());
    sec.client = Some(ClientExtension { client_id: "old".into(), ..Default::default() });
    let ext = Extensions { security: Some(Arc::new(sec)), ..Extensions::default() };

    let mut p = IdentityPayload::new("tok", TokenSource::Bearer);
    p.subject = Some(SubjectExtension { id: Some("alice".into()), ..Default::default() });
    let mut creds = RawCredentialsExtension::default();
    creds.inbound_tokens.insert(TokenRole::User, RawInboundToken::new("tok", "Authorization", TokenKind::Jwt));
    p.raw_credentials = Some(creds);
    p.delegation = Some(DelegationExtension { chain: vec!["svc".into()] });

    let out = p.apply_to_extensions(ext);
    let sec = out.security.unwrap();
    assert!(sec.has_label("pii"));
    assert_eq!(sec.classification.as_deref(), Some("internal"));
    assert_eq!(sec.subject.as_ref().unwrap().id.as_deref(), Some("alice"));
    assert_eq!(sec.client.as_ref().unwrap().client_id, "old");
    let creds = out.raw_credentials.unwrap();
    assert_eq!(creds.inbound_tokens.get(&TokenRole::User).unwrap().token.expose(), "tok");
    assert_eq!(out.delegation.unwrap().chain, vec!["svc".to_owned()]);
    assert!(out.meta.is_none());
}

#[test]
fn nothing_resolved_leaves_the_extensions_alone() {
    let p = IdentityPayload::new("tok", TokenSource::default());
    let out = p.apply_to_extensions(Extensions::default());
    assert!(out.security.is_none());
    assert!(out.raw_credentials.is_none());
    assert!(out.delegation.is_none());
}

#[test]
fn an_identity_makes_a_security_extension_where_there_was_none() {
    let mut p = IdentityPayload::new("tok", TokenSource::Bearer);
    p.caller_workload = Some(WorkloadIdentity { trust_domain: Some("corp.com".into()), ..Default::default() });
    let out = p.apply_to_extensions(Extensions::default());
    let sec = out.security.unwrap();
    assert_eq!(sec.caller_workload.as_ref().unwrap().trust_domain.as_deref(), Some("corp.com"));
    assert!(sec.subject.is_none());
}

#[test]
fn what_a_pipeline_resolved_is_copied_out_of_it() {
    let mut p = IdentityPayload::new("tok", TokenSource::Custom("magic-link".into()));
    p.subject = Some(SubjectExtension { id: Some("alice".into()), ..Default::default() });
    let held = Some(p);
    let out = IdentityPayload::from_pipeline_result(&held).unwrap();
    assert_eq!(out.raw_token(), "tok");
    assert_eq!(out.source(), &TokenSource::Custom("magic-link".into()));
    assert_eq!(out.subject.unwrap().id.as_deref(), Some("alice"));
    assert!(IdentityPayload::from_pipeline_result(&None).is_none());
}

#[test]
fn a_spiffe_id_names_a_trust_domain() {
    assert_eq!(trust_domain_of("spiffe://corp.com/ns/a").as_deref(), Some("corp.com"));
    assert_eq!(trust_domain_of("spiffe://corp.com").as_deref(), Some("corp.com"));
    assert_eq!(trust_domain_of("spiffe:///ns/default/sa/agent"), None);
    assert_eq!(trust_domain_of("spiffe://"), None);
    assert_eq!(trust_domain_of("spiffe:/"), None);
    assert_eq!(trust_domain_of("https://corp.com"), None);
    assert!(is_spiffe_id("spiffe://corp.com/ns/a"));
    assert!(!is_spiffe_id("spiffe:///x"));
}

struct KnowsNothing;

impl ClaimMapper for KnowsNothing {}

struct KnowsUsers;

impl ClaimMapper for KnowsUsers {
    fn map_subject(&self, claims: &TextMap<Json>) -> Option<SubjectExtension> {
        match claims.get("sub") {
            Some(Json::String(s)) => Some(SubjectExtension { id: Some(s.clone()), ..Default::default() }),
            _ => None,
        }
    }
}

#[test]
fn a_mapper_maps_the_roles_it_knows() {
    let mut claims = TextMap::new();
    claims.insert("sub".to_owned(), Json::String("alice".into()));
    assert!(KnowsNothing.map_subject(&claims).is_none());
    assert!(KnowsNothing.map_client(&claims).is_none());
    assert!(KnowsNothing.map_workload(&claims).is_none());
    assert_eq!(KnowsUsers.map_subject(&claims).unwrap().id.as_deref(), Some("alice"));
    assert!(KnowsUsers.map_client(&claims).is_none());
}

#[test]
fn a_written_payload_holds_no_secret() {
    let mut creds = RawCredentialsExtension::default();
    creds.inbound_tokens.insert(
        TokenRole::User,
        RawInboundToken::new("secret-a", "X-User-Token", TokenKind::Jwt),
    );
    let mut p = IdentityPayload::new("secret-b", TokenSource::ApiKey)
        .with_source_header("X-Api-Key")
        .with_raw_query_string("access_token=secret-c");
    p.raw_credentials = Some(creds);
    let out = p.without_secrets();
    assert_eq!(out.raw_token(), "");
    assert_eq!(out.raw_query_string(), None);
    assert_eq!(out.source(), &TokenSource::ApiKey);
    assert_eq!(out.source_header(), Some("X-Api-Key"));
    let token = out
        .raw_credentials
        .as_ref()
        .and_then(|c| c.inbound_tokens.get(&TokenRole::User));
    let token = token.expect("the structure stays");
    assert_eq!(token.token.expose(), "");
    assert_eq!(token.source_header, "X-User-Token");
    assert_eq!(p.raw_token(), "secret-b");
    let other = IdentityPayload::new("another", TokenSource::Bearer).without_secrets();
    assert!(other.raw_credentials.is_none());
}
