//! Storage and export subsystem for a sparse, address-keyed binary trie.
//!
//! The crate keeps the durable state of the trie in two stores and turns that
//! state into compact, randomly-indexable binary snapshots:
//!
//! - [`store`]: the primary store, holding per-stem leaf values, per-block
//!   delta logs for reorg safety, and the canonical head record;
//! - [`key_index`]: the secondary ordered index, recording per stem the owning
//!   address and a bitmap of populated sub-indices, used when leaf values live
//!   in an external authenticated trie;
//! - [`codec`], [`export`], [`delta`] and [`index_export`]: the snapshot
//!   format and the export routines that produce full-state, per-contract and
//!   block-range delta snapshots from either store;
//! - [`rpc`]: the service layer behind the four operations a request server
//!   exposes.

pub mod bitmap;
pub mod bytes;
pub mod codec;
pub mod config;
pub mod delta;
pub mod error;
pub mod export;
pub mod index_export;
pub mod key_index;
pub mod metrics;
pub mod names;
pub mod rpc;
pub mod stem_map;
pub mod store;
pub mod types;
