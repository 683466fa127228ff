//! A three-way directory synchronization core.
//!
//! The crate models the three filesystem views a sync client works with
//! (the live scan, the persisted snapshot, and the remote listing),
//! classifies every divergence between them into an action, and carries
//! those actions to snapshot updates. Names are kept in a percent-encoded
//! canonical form throughout.

pub mod actions;
pub mod cli;
pub mod client_string;
pub mod content;
pub mod repository;
pub mod snapshot;
