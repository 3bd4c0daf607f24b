//! Incremental note-commitment trees: append-only Merkle frontiers that report
//! completed subtrees, and a checkpointed wallet tree with marks, rewind and
//! per-transaction position records.

pub mod assoc;
pub mod codec;
pub mod frontier;
pub mod laws;
pub mod legacy;
pub mod note_state;
pub mod orchard_frontier;
pub mod orchard_node;
pub mod positions_codec;
pub mod sapling_frontier;
pub mod sapling_node;
pub mod tree;
pub mod tree_codec;
pub mod wallet;
