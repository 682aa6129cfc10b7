//! What a hook is, and what a handler of one returns.
use crate::error::PluginViolation;
use crate::extensions::container::Extensions;
use crate::value::Json;
use vstd::prelude::*;

verus! {

/// Defines a hook's contract: what goes in, what comes out, and its name.
pub trait HookTypeDef {
    /// The typed payload that handlers receive.
    type Payload;

    /// The typed result that handlers return.
    type Result;

    /// Hook name: the registry key, and what the policy document calls it.
    const NAME: &'static str;
}

/// Result returned by a hook handler.
///
/// Payload and extension modifications are separate: changing an extension does
/// not require a copy of the payload.
pub struct PluginResult<P> {
    /// Whether the pipeline should continue processing; `false` is a denial.
    pub continue_processing: bool,
    /// Modified payload. `None` means no content modification.
    pub modified_payload: Option<P>,
    /// Modified extensions. `None` means no extension changes.
    pub modified_extensions: Option<Extensions>,
    /// Policy violation, where there is one.
    pub violation: Option<PluginViolation>,
    /// Optional metadata from the plugin.
    pub metadata: Option<Json>,
}

impl<P> PluginResult<P> {
    /// Allow: payload continues unchanged, no extension changes.
    pub fn allow() -> (r: Self)
        ensures
            r == (PluginResult::<P> {
                continue_processing: true,
                modified_payload: None,
                modified_extensions: None,
                violation: None,
                metadata: None,
            }),
    {
        PluginResult {
            continue_processing: true,
            modified_payload: None,
            modified_extensions: None,
            violation: None,
            metadata: None,
        }
    }

    /// Deny: pipeline halts with a violation.
    pub fn deny(violation: PluginViolation) -> (r: Self)
        ensures
            r == (PluginResult::<P> {
                continue_processing: false,
                modified_payload: None,
                modified_extensions: None,
                violation: Some(violation),
                metadata: None,
            }),
    {
        PluginResult {
            continue_processing: false,
            modified_payload: None,
            modified_extensions: None,
            violation: Some(violation),
            metadata: None,
        }
    }

    /// Modify payload only: extensions unchanged.
    pub fn modify_payload(payload: P) -> (r: Self)
        ensures
            r == (PluginResult::<P> {
                continue_processing: true,
                modified_payload: Some(payload),
                modified_extensions: None,
                violation: None,
                metadata: None,
            }),
    {
        PluginResult {
            continue_processing: true,
            modified_payload: Some(payload),
            modified_extensions: None,
            violation: None,
            metadata: None,
        }
    }

    /// Modify extensions only: payload unchanged.
    pub fn modify_extensions(extensions: Extensions) -> (r: Self)
        ensures
            r == (PluginResult::<P> {
                continue_processing: true,
                modified_payload: None,
                modified_extensions: Some(extensions),
                violation: None,
                metadata: None,
            }),
    {
        PluginResult {
            continue_processing: true,
            modified_payload: None,
            modified_extensions: Some(extensions),
            violation: None,
            metadata: None,
        }
    }

    /// Modify both payload and extensions.
    pub fn modify(payload: P, extensions: Extensions) -> (r: Self)
        ensures
            r == (PluginResult::<P> {
                continue_processing: true,
                modified_payload: Some(payload),
                modified_extensions: Some(extensions),
                violation: None,
                metadata: None,
            }),
    {
        PluginResult {
            continue_processing: true,
            modified_payload: Some(payload),
            modified_extensions: Some(extensions),
            violation: None,
            metadata: None,
        }
    }

    /// Whether this result represents a denial.
    pub fn is_denied(&self) -> (r: bool)
        ensures
            r == !self.continue_processing,
    {
        !self.continue_processing
    }

    /// Whether this result carries a modified payload.
    pub fn is_payload_modified(&self) -> (r: bool)
        ensures
            r == (self.modified_payload is Some),
    {
        self.modified_payload.is_some()
    }

    /// Whether this result carries modified extensions.
    pub fn is_extensions_modified(&self) -> (r: bool)
        ensures
            r == (self.modified_extensions is Some),
    {
        self.modified_extensions.is_some()
    }
}

impl<P> Default for PluginResult<P> {
    /// Allow. A default that denied would turn an omission into a silent block.
    fn default() -> (r: Self)
        ensures
            r.continue_processing,
            r.modified_payload is None,
            r.modified_extensions is None,
            r.violation is None,
            r.metadata is None,
    {
        PluginResult::allow()
    }
}

} // verus!
