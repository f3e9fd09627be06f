//! Minimal data structures and an entity/component registry, verified.
//!
//! Generational indices and their allocator, the optional-slot map and the sparse set, the
//! arena and the generational map built on them, joins between maps, and a registry of
//! storages with a runtime single-writer / multi-reader check.

pub mod collections;
pub mod ecs;
pub mod genindex;
pub mod markers;

pub use genindex::{GenIndex, Index, IndexU64, TypedIndex};
pub use markers::UnsignedNum;
