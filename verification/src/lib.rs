//! Core of a recursive DNS resolver: names, records and messages as plain
//! values, a TTL-aware LRU cache with poisoning-resistant referral storage,
//! target selection, and the recursive resolution state machine.

pub mod backend;
pub mod cache;
pub mod daemon;
pub mod name;
pub mod records;
pub mod resolver;
pub mod target;
