//! A read-only, inode-addressed directory tree mirroring a remote
//! hierarchical secret store.
//!
//! - `tree`: the nodes, the arena that indexes them by inode, and lookups.
//! - `builder`: builds the arena one store reply at a time, depth-first.
//! - `filesystem`: attributes, listings and reads as a host driver asks them.
//! - `vault_api`: the store's reply bodies and how their status is taken.
//! - `settings`: where the store is and how to reach it.

pub mod builder;
pub mod filesystem;
pub mod settings;
pub mod tree;
pub mod vault_api;
