//! Content storage and cascading-deletion engine for a documentation host.
//!
//! The crate models the two storage substrates of the host — a blob store
//! keyed by hierarchical paths and a relational catalog of packages,
//! versions and their dependent rows — and verifies the operations that the
//! host performs on them: transactional batches of blob writes, literal
//! prefix deletion, bounded reads, and the two-phase cascading removal of a
//! package or a single version.

pub mod activity;
pub mod blacklist;
pub mod builds;
pub mod catalog;
pub mod delete;
pub mod like;
pub mod limits;
pub mod metadata;
pub mod pool;
pub mod queue;
pub mod storage;
pub mod text;
