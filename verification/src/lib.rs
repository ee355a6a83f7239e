//! Shared mempool of a blockchain node: peer selection, per-peer broadcast
//! cursors and the decisions of the inbound and outbound transaction flows.

pub mod core_mempool;
pub mod mocks;
pub mod runtime;
pub mod shared_mempool;
pub mod types;
pub mod upstream_proxy;
