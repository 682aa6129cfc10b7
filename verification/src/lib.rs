//! The core of a policy engine: what a request carries, how it is read, and
//! which plugins answer for it.
pub mod config;
pub mod documents;
pub mod duration;
pub mod engine;
pub mod error;
pub mod extensions;
pub mod factory;
pub mod hooks;
pub mod host;
pub mod http_addr;
pub mod http_credential;
pub mod http_hook;
pub mod http_path;
pub mod http_retry;
pub mod http_transport;
pub mod identity;
pub mod key_set;
pub mod overrides;
pub mod plugin;
pub mod registry;
pub mod route_table;
pub mod selection;
pub mod text;
pub mod value;
pub mod visitor;
pub mod yaml;
