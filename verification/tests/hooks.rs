//! Hook names, their metadata, and what handlers return.
use ppe_core::error::PluginViolation;
use ppe_core::extensions::container::Extensions;
use ppe_core::hooks::metadata::{
    builtin_hook_metadata, cmf_hook_metadata, concat_hook_tables, delegation_hook_metadata,
    elicitation_hook_metadata, hook_tables, lookup, register_hook_metadata, registry,
    HookMetadata, HookPhase, ENTITY_HTTP, ENTITY_LLM, ENTITY_TOOL, HOOK_CMF_HTTP_REQUEST,
    HOOK_CMF_HTTP_RESPONSE, HOOK_CMF_LLM_INPUT, HOOK_CMF_LLM_OUTPUT, HOOK_CMF_PROMPT_POST_INVOKE,
    HOOK_CMF_PROMPT_PRE_INVOKE, HOOK_CMF_RESOURCE_POST_FETCH, HOOK_CMF_RESOURCE_PRE_FETCH,
    HOOK_CMF_TOOL_POST_INVOKE, HOOK_CMF_TOOL_PRE_INVOKE, HOOK_ELICIT, HOOK_TOKEN_DELEGATE,
};
use ppe_core::hooks::trait_def::{HookTypeDef, PluginResult};
use ppe_core::hooks::types::{builtin_hook_types, hook_type_from_str, HookType};
use ppe_core::http_hook::{
    http_hook_metadata, HttpHook, HttpPayload, HOOK_HTTP_REQUEST, HOOK_HTTP_RESPONSE,
};
use ppe_core::identity::hook::{identity_hook_metadata, IdentityHook, HOOK_IDENTITY_RESOLVE};
use std::any::TypeId;

#[test]
fn cmf_tool_pre_invoke_is_pre_phase_for_tool_entity() {
    let meta = lookup(&registry(), HOOK_CMF_TOOL_PRE_INVOKE).expect("registered");
    assert_eq!(meta.entity_type, Some(ENTITY_TOOL));
    assert_eq!(meta.phase, HookPhase::Pre);
}

#[test]
fn cmf_llm_output_is_post_phase_for_llm_entity() {
    let meta = lookup(&registry(), HOOK_CMF_LLM_OUTPUT).expect("registered");
    assert_eq!(meta.entity_type, Some(ENTITY_LLM));
    assert_eq!(meta.phase, HookPhase::Post);
}

#[test]
fn identity_resolve_is_unphased_no_entity() {
    let meta = lookup(&registry(), HOOK_IDENTITY_RESOLVE).expect("registered");
    assert_eq!(meta.entity_type, None);
    assert_eq!(meta.phase, HookPhase::Unphased);
}

#[test]
fn token_delegate_is_unphased_no_entity() {
    let meta = lookup(&registry(), HOOK_TOKEN_DELEGATE).expect("registered");
    assert_eq!(meta.entity_type, None);
    assert_eq!(meta.phase, HookPhase::Unphased);
}

#[test]
fn an_unregistered_hook_has_no_entry() {
    assert_eq!(lookup(&registry(), "custom.unrecognized_hook"), None);
}

#[test]
fn an_unphased_hook_is_distinguishable_from_an_absent_one() {
    for name in [HOOK_IDENTITY_RESOLVE, HOOK_TOKEN_DELEGATE, HOOK_ELICIT] {
        let meta = lookup(&registry(), name).expect("registered");
        assert_eq!(meta.phase, HookPhase::Unphased, "{name}");
    }
    assert_eq!(lookup(&registry(), "identity.resolve_typo"), None);
}

#[test]
fn every_builtin_hook_is_registered() {
    let table = registry();
    for (name, meta) in builtin_hook_metadata() {
        assert_eq!(lookup(&table, name).as_ref(), Some(&meta), "{name}");
    }
    assert_eq!(table.len(), builtin_hook_metadata().len());
}

#[test]
fn a_host_registered_hook_becomes_present() {
    let mut table = registry();
    let name = "test_custom.registered_at_runtime";
    assert_eq!(lookup(&table, name), None);
    register_hook_metadata(&mut table, name, HookMetadata::permissive());
    assert_eq!(lookup(&table, name), Some(HookMetadata::permissive()));
}

#[test]
fn matches_filters_by_entity_type_when_set() {
    let tool_pre = HookMetadata {
        entity_type: Some(ENTITY_TOOL),
        phase: HookPhase::Pre,
    };
    assert!(tool_pre.matches(Some(ENTITY_TOOL), HookPhase::Pre));
    assert!(!tool_pre.matches(Some(ENTITY_LLM), HookPhase::Pre));
}

#[test]
fn matches_allows_any_entity_when_hook_entity_is_none() {
    let universal = HookMetadata {
        entity_type: None,
        phase: HookPhase::Pre,
    };
    assert!(universal.matches(Some(ENTITY_TOOL), HookPhase::Pre));
    assert!(universal.matches(Some(ENTITY_LLM), HookPhase::Pre));
    assert!(universal.matches(None, HookPhase::Pre));
}

#[test]
fn matches_phase_exactly_unless_unphased() {
    let tool_pre = HookMetadata {
        entity_type: Some(ENTITY_TOOL),
        phase: HookPhase::Pre,
    };
    assert!(tool_pre.matches(Some(ENTITY_TOOL), HookPhase::Pre));
    assert!(!tool_pre.matches(Some(ENTITY_TOOL), HookPhase::Post));
}

#[test]
fn matches_unphased_is_wildcard_in_either_direction() {
    let unphased = HookMetadata {
        entity_type: None,
        phase: HookPhase::Unphased,
    };
    assert!(unphased.matches(Some(ENTITY_TOOL), HookPhase::Pre));
    assert!(unphased.matches(Some(ENTITY_LLM), HookPhase::Post));

    let tool_pre = HookMetadata {
        entity_type: Some(ENTITY_TOOL),
        phase: HookPhase::Pre,
    };
    assert!(tool_pre.matches(Some(ENTITY_TOOL), HookPhase::Unphased));
}

#[test]
fn matches_request_without_entity_type_doesnt_filter_on_it() {
    let tool_pre = HookMetadata {
        entity_type: Some(ENTITY_TOOL),
        phase: HookPhase::Pre,
    };
    assert!(tool_pre.matches(None, HookPhase::Pre));
}

#[test]
fn cmf_http_request_is_pre_phase_for_http_entity() {
    let meta = lookup(&registry(), HOOK_CMF_HTTP_REQUEST).expect("registered");
    assert_eq!(meta.entity_type, Some(ENTITY_HTTP));
    assert_eq!(meta.phase, HookPhase::Pre);
}

#[test]
fn cmf_http_response_is_post_phase_for_http_entity() {
    let meta = lookup(&registry(), HOOK_CMF_HTTP_RESPONSE).expect("registered");
    assert_eq!(meta.entity_type, Some(ENTITY_HTTP));
    assert_eq!(meta.phase, HookPhase::Post);
}

#[test]
fn elicit_is_unphased_no_entity() {
    let meta = lookup(&registry(), HOOK_ELICIT).expect("registered");
    assert_eq!(meta.entity_type, None);
    assert_eq!(meta.phase, HookPhase::Unphased);
}

#[test]
fn http_hooks_match_entity_typed_dispatch_as_before() {
    let request = lookup(&registry(), HOOK_CMF_HTTP_REQUEST).expect("registered");
    let response = lookup(&registry(), HOOK_CMF_HTTP_RESPONSE).expect("registered");
    assert!(request.matches(Some(ENTITY_HTTP), HookPhase::Pre));
    assert!(!request.matches(Some(ENTITY_HTTP), HookPhase::Post));
    assert!(!request.matches(Some(ENTITY_TOOL), HookPhase::Pre));
    assert!(response.matches(Some(ENTITY_HTTP), HookPhase::Post));
    assert!(!response.matches(Some(ENTITY_HTTP), HookPhase::Pre));
}

#[test]
fn authority_holds_every_declared_hook() {
    assert_eq!(cmf_hook_metadata().len(), 10);
    assert_eq!(identity_hook_metadata().len(), 1);
    assert_eq!(delegation_hook_metadata().len(), 1);
    assert_eq!(elicitation_hook_metadata().len(), 1);
    assert_eq!(builtin_hook_metadata().len(), 13);
    let all = builtin_hook_metadata();
    for table in hook_tables() {
        for (name, _) in &table {
            assert!(
                all.iter().any(|(n, _)| n == name),
                "{name} is declared but missing from the concatenated table",
            );
        }
    }
    assert_eq!(concat_hook_tables(&hook_tables()), all);
}

#[test]
fn no_two_modules_declare_the_same_hook_name() {
    let mut seen = std::collections::HashSet::new();
    for (name, _) in builtin_hook_metadata() {
        assert!(seen.insert(name), "{name} is declared by two modules");
    }
}

#[test]
fn every_hook_constant_keeps_its_import_path() {
    let all = builtin_hook_metadata();
    for name in [
        HOOK_CMF_TOOL_PRE_INVOKE,
        HOOK_CMF_TOOL_POST_INVOKE,
        HOOK_CMF_LLM_INPUT,
        HOOK_CMF_LLM_OUTPUT,
        HOOK_CMF_PROMPT_PRE_INVOKE,
        HOOK_CMF_PROMPT_POST_INVOKE,
        HOOK_CMF_RESOURCE_PRE_FETCH,
        HOOK_CMF_RESOURCE_POST_FETCH,
        HOOK_CMF_HTTP_REQUEST,
        HOOK_CMF_HTTP_RESPONSE,
        HOOK_IDENTITY_RESOLVE,
        HOOK_TOKEN_DELEGATE,
        HOOK_ELICIT,
    ] {
        assert!(
            all.iter().any(|(n, _)| *n == name),
            "{name} resolved but is not in the authority",
        );
    }
}

#[test]
fn register_hook_metadata_overrides_default() {
    let mut table = registry();
    let name = "test_custom.overridden_meta";
    register_hook_metadata(
        &mut table,
        name,
        HookMetadata {
            entity_type: Some("custom"),
            phase: HookPhase::Pre,
        },
    );
    let meta = lookup(&table, name).expect("registered");
    assert_eq!(meta.entity_type, Some("custom"));
    assert_eq!(meta.phase, HookPhase::Pre);
}

#[test]
fn test_hook_type_equality() {
    let a = HookType::new("cmf.tool_pre_invoke");
    let b = HookType::new("cmf.tool_pre_invoke");
    assert_eq!(a, b);
}

#[test]
fn test_hook_type_display() {
    let h = HookType::new("cmf.llm_input");
    assert_eq!(h.text(), "cmf.llm_input");
}

#[test]
fn test_hook_type_from_str() {
    let h: HookType = "custom_hook".into();
    assert_eq!(h.as_str(), "custom_hook");
    let owned: HookType = "custom_hook".to_owned().into();
    assert_eq!(owned, h);
}

#[test]
fn the_enumeration_is_the_authoritys_key_set() {
    let derived: Vec<String> = builtin_hook_types()
        .iter()
        .map(|h| h.as_str().to_owned())
        .collect();
    let authority: Vec<String> = builtin_hook_metadata()
        .iter()
        .map(|(name, _)| (*name).to_owned())
        .collect();
    assert_eq!(derived, authority);
}

#[test]
fn adding_a_row_to_the_authority_needs_no_second_edit() {
    assert_eq!(builtin_hook_types().len(), builtin_hook_metadata().len());
}

#[test]
fn hook_type_from_str_is_canonical_for_a_builtin_and_custom_otherwise() {
    let builtin = HOOK_CMF_TOOL_PRE_INVOKE;
    assert_eq!(hook_type_from_str(builtin).as_str(), builtin);
    assert_eq!(
        hook_type_from_str("host.custom_hook").as_str(),
        "host.custom_hook",
    );
}

#[derive(Debug, Clone, PartialEq)]
struct TestPayload {
    value: String,
}

fn payload() -> TestPayload {
    TestPayload {
        value: "v".to_owned(),
    }
}

#[test]
fn allow_is_not_denied_and_modifies_nothing() {
    let r = PluginResult::<TestPayload>::allow();
    assert!(!r.is_denied());
    assert!(!r.is_payload_modified());
    assert!(!r.is_extensions_modified());
}

#[test]
fn deny_reads_as_denied() {
    let r = PluginResult::<TestPayload>::deny(PluginViolation::new("c", "r"));
    assert!(r.is_denied(), "a deny must halt the pipeline");
    assert!(!r.is_payload_modified());
    let violation = r.violation.unwrap();
    assert_eq!(violation.code, "c");
    assert_eq!(violation.reason, "r");
}

#[test]
fn modify_payload_reports_only_a_payload_change() {
    let r = PluginResult::modify_payload(payload());
    assert!(!r.is_denied(), "a rewrite is not a denial");
    assert!(r.is_payload_modified());
    assert!(
        !r.is_extensions_modified(),
        "changing the payload must not claim an extensions change"
    );
}

#[test]
fn modify_reports_both_a_payload_and_an_extensions_change() {
    let owned = Extensions::default();
    let r = PluginResult::modify(payload(), owned);
    assert!(!r.is_denied());
    assert!(r.is_payload_modified());
    assert!(r.is_extensions_modified());
    assert_eq!(r.modified_payload.unwrap().value, "v");
}

#[test]
fn modify_extensions_reports_only_an_extensions_change() {
    let r = PluginResult::<TestPayload>::modify_extensions(Extensions::default());
    assert!(!r.is_denied());
    assert!(!r.is_payload_modified());
    assert!(r.is_extensions_modified());
}

#[test]
fn the_default_result_is_allow() {
    let r = PluginResult::<TestPayload>::default();
    assert!(!r.is_denied(), "default must not deny");
    assert!(!r.is_payload_modified());
    assert!(!r.is_extensions_modified());
}

#[test]
fn the_hook_type_names_the_family_and_carries_the_http_payload() {
    assert_eq!(HttpHook::NAME, "http");
    assert_eq!(
        TypeId::of::<<HttpHook as HookTypeDef>::Payload>(),
        TypeId::of::<HttpPayload>(),
    );
}

#[test]
fn the_family_declares_exactly_the_two_http_names() {
    let rows = http_hook_metadata();
    let names: Vec<&str> = rows.iter().map(|(name, _)| *name).collect();
    assert_eq!(names, vec!["http.request", "http.response"]);
    assert_eq!(HOOK_HTTP_REQUEST, "http.request");
    assert_eq!(HOOK_HTTP_RESPONSE, "http.response");
}

#[test]
fn the_identity_hook_is_named_after_its_own_hook() {
    assert_eq!(IdentityHook::NAME, HOOK_IDENTITY_RESOLVE);
}
