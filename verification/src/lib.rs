//! An incremental, content-addressed manifest derivation engine.
//!
//! Given a changeset's file-change list and the already-derived directory
//! trees of its parent changesets, the engine computes a new directory tree
//! that reflects the changeset's state, reusing as much of the parents'
//! structure as possible and handing every newly created node to a write
//! queue that is drained before the result is published.
//!
//! Directory contents are held in a persistent sharded trie keyed by byte
//! strings, so that very large directories are split into separately stored
//! fragments and only the prefixes touched by changes are ever materialized.
//! Every directory node carries a rollup count: one for the node itself plus
//! the contribution of every descendant file and directory.

pub mod config;
pub mod derive;
pub mod io;
pub mod keys;
pub mod node;
pub mod matcher;
pub mod merge;
pub mod shard;
pub mod store;
