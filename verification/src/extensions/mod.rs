//! What a request carries besides its payload, and who may read it.
pub mod agent;
pub mod container;
pub mod http_extension;
pub mod llm;
pub mod monotonic;
pub mod raw_credentials;
pub mod security;
pub mod tiers;
pub use crate::extensions::agent::{AgentExtension, ConversationContext, Message};
pub use crate::extensions::http_extension::HttpExtension;
pub use crate::extensions::llm::ToolChoice;
pub use crate::extensions::monotonic::{DeclassifierToken, MonotonicSet};
pub use crate::extensions::tiers::{AccessPolicy, Capability, MutabilityTier, SlotPolicy};
pub use crate::extensions::container::{DelegationExtension, Extensions, MetaExtension};
pub use crate::extensions::raw_credentials::{
    DelegationKey, DelegationMode, RawCredentialsExtension, RawDelegatedToken, RawInboundToken,
    SecretText, TokenKind, TokenRole,
};
pub use crate::extensions::security::{
    ClientExtension, ClientTrustLevel, DataPolicy, ObjectSecurityProfile, RetentionPolicy,
    SecurityExtension, SubjectExtension, SubjectType, Timestamp, WorkloadIdentity,
};
