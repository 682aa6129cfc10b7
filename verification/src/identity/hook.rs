//! The identity-resolve hook.
use crate::hooks::metadata;
use crate::hooks::metadata::HookMetadata;
use crate::hooks::trait_def::{HookTypeDef, PluginResult};
use crate::identity::payload::IdentityPayload;
use vstd::prelude::*;

verus! {

/// Hook that resolves who a request comes from. Unphased: it fires once at
/// request entry, before any phase exists.
pub const HOOK_IDENTITY_RESOLVE: &'static str = "identity.resolve";

/// The identity family's row in the built-in hook metadata table.
pub fn identity_hook_metadata() -> (r: Vec<(&'static str, HookMetadata)>)
    ensures
        r@ == metadata::unphased_row(HOOK_IDENTITY_RESOLVE),
{
    vec![(HOOK_IDENTITY_RESOLVE, HookMetadata::permissive())]
}

/// Identity-resolve hook. Handlers accumulate what they resolve on the payload.
#[derive(Debug, Clone, Copy)]
pub struct IdentityHook;

impl HookTypeDef for IdentityHook {
    type Payload = IdentityPayload;

    type Result = PluginResult<IdentityPayload>;

    const NAME: &'static str = "identity.resolve";
}

} // verus!
