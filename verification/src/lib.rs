//! A bounded-capacity key-value cache with first-in-first-out eviction.
//!
//! The cache holds at most `capacity` entries. Inserting a fresh key into a
//! full cache evicts the single oldest-inserted entry; looking a key up never
//! changes the eviction order.

pub mod cache;
pub mod error;
