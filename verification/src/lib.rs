//! Resolution of (possibly partial) Python version specifiers against the
//! set of interpreters recorded in a hierarchical key-value store.
//!
//! The crate is split into the numeral model ([`num`]), the version-tag value
//! type with its ordering and containment relations ([`tag`]), and the
//! selection procedures that pick the best candidate for a query ([`resolve`]).

pub mod num;
pub mod resolve;
pub mod tag;
