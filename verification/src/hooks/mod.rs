//! Hooks: their names, their metadata, and what their handlers return.
pub mod metadata;
pub mod trait_def;
pub mod types;
pub use crate::hooks::metadata::{HookMetadata, HookPhase};
pub use crate::hooks::trait_def::{HookTypeDef, PluginResult};
pub use crate::hooks::types::HookType;
