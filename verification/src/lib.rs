//! Schema-driven client core for smart-contract transactions.
//!
//! The crate covers the algorithmic heart of a contract-transaction client:
//! a value codec that translates JSON-shaped values to and from the binary
//! layouts described by a versioned module schema, the pure construction of
//! transaction payloads, the submit/await-finalization state machine, and the
//! interpretation of finalized outcomes.

pub mod codec;
pub mod decode;
pub mod encode;
pub mod hex;
pub mod laws;
pub mod parse;
pub mod driver;
pub mod outcome;
pub mod schema;
pub mod transaction;
pub mod layout;
pub mod text;
pub mod wire;
pub mod values;
