//! Order-book replication engine for a block-structured trading venue.
//!
//! The crate keeps a Level-4 view of every resting limit order across all
//! coins, advances it one block at a time by reconciling two event streams
//! (order statuses and raw book diffs), and derives full L4 snapshots and
//! aggregated L2 snapshots from the current state.

pub mod types;
pub mod order;
pub mod errors;
pub mod book;
pub mod multi_book;
pub mod node_data;
pub mod l2;
pub mod state;
