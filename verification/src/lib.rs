//! Gossip membership: reconciliation of peer views and the rules that drive
//! the periodic exchange between nodes.

pub mod common;
pub mod heartbeat;
pub mod listener;
pub mod settings;
pub mod sync;
pub mod sync_laws;
