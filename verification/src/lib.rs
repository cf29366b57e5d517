//! Verified core of a client for a versioned, hierarchically-named key/value
//! store: reconstruction of a path tree from flat slash-separated keys,
//! deterministic tree display, flat projection and JSON interchange, and an
//! optimistic-concurrency bulk import that reconciles a desired mapping
//! against the live store one conditional write at a time.

pub mod codec;
pub mod emit;
pub mod entry;
pub mod flat;
pub mod import;
pub mod json;
pub mod keys;
pub mod tree;
