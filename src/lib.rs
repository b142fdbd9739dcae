//! Inode/tree manager of a filesystem that mirrors a remote object store.
//!
//! The manager keeps three views of every file consistent: its inode number,
//! its position in an in-memory directory tree, and its remote identifier.
pub mod file;
pub mod manager;
