//! How a slot of the extensions may change, and what it takes to see it.
use vstd::prelude::*;

verus! {

/// How a slot may change while a request is handled.
#[derive(Debug, Clone, Copy, PartialEq, Eq, Hash, Structural)]
pub enum MutabilityTier {
    /// Never.
    Immutable,
    /// By additions only.
    Monotonic,
    /// Freely.
    Mutable,
}

/// What a plugin may be allowed to do.
#[derive(Debug, Clone, Copy, PartialEq, Eq, Hash, Structural)]
pub enum Capability {
    /// See the subject.
    ReadSubject,
    /// See the subject's roles.
    ReadRoles,
    /// See the subject's teams.
    ReadTeams,
    /// See the subject's claims.
    ReadClaims,
    /// See the subject's permissions.
    ReadPermissions,
    /// See the client.
    ReadClient,
    /// See the workloads.
    ReadWorkload,
    /// See the agent.
    ReadAgent,
    /// See the headers.
    ReadHeaders,
    /// Change the headers.
    WriteHeaders,
    /// See the labels.
    ReadLabels,
    /// Add labels.
    AppendLabels,
    /// See the delegation chain.
    ReadDelegation,
    /// Add to the delegation chain.
    AppendDelegation,
    /// See the raw inbound credentials.
    ReadInboundCredentials,
    /// See the delegated tokens.
    ReadDelegatedTokens,
    /// Make outbound requests.
    PerformHttp,
}

/// Whether a slot is open to every plugin.
#[derive(Debug, Clone, Copy, PartialEq, Eq, Hash, Structural)]
pub enum AccessPolicy {
    /// Every plugin sees it.
    Unrestricted,
    /// A capability is needed.
    CapabilityGated,
}

/// The rules of one slot.
#[derive(Debug, Clone)]
pub struct SlotPolicy {
    /// How it may change.
    pub tier: MutabilityTier,
    /// Whether it is open.
    pub access: AccessPolicy,
    /// What it takes to see it.
    pub read_cap: Option<Capability>,
    /// What it takes to change it.
    pub write_cap: Option<Capability>,
}

} // verus!
