//! HTTP hook family: the two generic-HTTP hook names, the payload they carry,
//! and the marker for handlers written against them.
use crate::hooks::metadata::{HookMetadata, HookPhase, ENTITY_HTTP};
use crate::hooks::trait_def::{HookTypeDef, PluginResult};
use vstd::prelude::*;

verus! {

/// Generic HTTP request hook, on the way in.
pub const HOOK_HTTP_REQUEST: &'static str = "http.request";

/// Generic HTTP response hook, the return half of [`HOOK_HTTP_REQUEST`].
pub const HOOK_HTTP_RESPONSE: &'static str = "http.response";

/// The HTTP family's rows in a hook metadata table.
pub fn http_hook_metadata() -> (r: Vec<(&'static str, HookMetadata)>)
    ensures
        r@ == seq![
            (
                HOOK_HTTP_REQUEST,
                HookMetadata { entity_type: Some(ENTITY_HTTP), phase: HookPhase::Pre },
            ),
            (
                HOOK_HTTP_RESPONSE,
                HookMetadata { entity_type: Some(ENTITY_HTTP), phase: HookPhase::Post },
            ),
        ],
{
    vec![
        (HOOK_HTTP_REQUEST, HookMetadata { entity_type: Some(ENTITY_HTTP), phase: HookPhase::Pre }),
        (HOOK_HTTP_RESPONSE, HookMetadata { entity_type: Some(ENTITY_HTTP), phase: HookPhase::Post }),
    ]
}

/// The payload the HTTP hooks carry. Empty on purpose: what a handler reads of
/// an exchange lives on the HTTP extension.
#[derive(Debug, Clone, Copy, Default, PartialEq, Eq)]
pub struct HttpPayload;

/// Generic HTTP hook, one type for both halves.
#[derive(Debug, Clone, Copy)]
pub struct HttpHook;

impl HookTypeDef for HttpHook {
    type Payload = HttpPayload;

    type Result = PluginResult<HttpPayload>;

    const NAME: &'static str = "http";
}

} // verus!
