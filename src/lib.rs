//! Ordered hash map with queue-like semantics.
//!
//! `OrdHash` combines a `HashMap` for key lookups with a `VecDeque` that records
//! insertion or refresh order. Every insert or refresh advances a generation
//! counter and stamps both the stored slot and a new order tag with it, so stale
//! order tags are recognised (their stamp no longer matches the slot) and skipped
//! without scanning or reordering anything. Stamp 0 marks a disabled slot.
mod key;
mod ordhash;

pub use key::HashKey;
pub use ordhash::OrdHash;
