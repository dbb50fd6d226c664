//! Verified core of a wallet output manager: it owns the wallet's
//! unspent-transaction-output set, derives spending keys from a deterministic
//! seed, assembles outbound transaction drafts, reconciles wallet state with a
//! remote base node, and enforces a lifecycle on every output.

pub mod base_node_states;
pub mod consensus;
pub mod error;
pub mod key_manager;
pub mod laws;
pub mod selection;
pub mod service;
pub mod store;
pub mod types;
pub mod wrappers;
