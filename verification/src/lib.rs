//! Persistence and snapshot orchestration for a message broker.
//!
//! The broker's in-memory state is captured to a directory of timestamped,
//! compressed state files with a "latest" pointer, recovered on startup, and
//! coordinated with process shutdown through a snapshotter that exclusively
//! owns the persistor.

pub mod auth;
pub mod clock;
pub mod codec;
pub mod dir;
pub mod persist;
pub mod snapshot;
pub mod state;

pub use state::BrokerState;
