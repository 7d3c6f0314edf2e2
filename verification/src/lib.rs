//! A single-table shard of a multi-table tournament poker game.
//!
//! The crate covers the table-shard coordination layer: the data model for
//! table and player state, the checkpoint representation used for recovery
//! and result reporting, the bridge-event protocol spoken with the
//! tournament orchestrator, and the state-transition logic that keeps the
//! seat assignment and the checkpoint consistent across relocations, game
//! starts, closures and settlements.

pub mod base;
pub mod codec;
pub mod errors;
pub mod shard;
