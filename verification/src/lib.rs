//! An in-process key/value cache whose entries carry an optional absolute
//! deadline. Entries past their deadline are hidden from readers lazily and
//! removed actively by a randomized sampling sweep, so that staleness is
//! bounded without ever scanning the whole store.
//!
//! Time is explicit throughout: every operation that depends on the clock
//! takes the current instant as a plain tick count, so the whole store logic
//! is deterministic and verified. A host embedding the cache supplies the
//! clock, the locking and the scheduling around it.

pub mod cache;
pub mod entry;
pub mod key;
pub mod laws;
pub(crate) mod rng;
pub mod store;
pub mod sweep;

pub use crate::cache::Cache;
pub use crate::entry::CacheExpiration;
pub use crate::sweep::Threshold;
