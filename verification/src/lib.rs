//! LRU cache eviction for a container-image store.
//!
//! The library tracks when each image was last used in a durable ledger,
//! resolves a configured size threshold against live filesystem capacity,
//! and selects eviction victims in least-recently-used order, sparing
//! images that are in use or whose names match a configured keep pattern.

pub mod codec;
pub mod config;
pub mod keep;
pub mod state;
pub mod threshold;
pub mod vacuum;
