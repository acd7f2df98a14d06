//! A content-addressable version-control storage backend: the reference store
//! and its transaction engine.
//!
//! References map human-readable names (branches, tags, `HEAD`) to object
//! identities. They live either as one file per name (loose) or as lines of a
//! single consolidated file (packed). The store merges both backends into one
//! namespace, resolves symbolic references with cycle detection, and applies
//! batches of edits with compare-and-swap preconditions and history logging.

pub mod bytestr;
pub mod hash;
pub mod loose;
pub mod mutable;
pub mod name;
pub mod objects;
pub mod odb;
pub mod overlay;
pub mod release;
pub mod log;
pub mod packed;
pub mod reference;
pub mod store;
pub mod transaction;
pub mod tree_ref;

pub use mutable::Kind;
