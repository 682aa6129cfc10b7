//! Who a request comes from.
pub mod hook;
pub mod mapping;
pub mod payload;
