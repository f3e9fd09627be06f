//! Collections keyed by raw indices or by generational indices.

pub mod allocator;
pub mod anymap;
pub mod arena;
pub mod genindexmap;
pub mod join;
pub mod map;
pub mod sparseset;
pub mod tuple;
pub mod vecmap;

pub use allocator::GenIndexAllocator;
pub use anymap::AnyMap;
pub use arena::GenIndexArena;
pub use genindexmap::{GenIndexMap, GenIndexSparseSet, GenIndexVecMap};
pub use join::{MapJoin, MapJoinIter, MapJoinLeftExclIter, MapJoinLeftIter};
pub use map::{Arena, AssocMap, IterableMap, IterableMapMut, MapMut};
pub use sparseset::{Drain, SparseSet};
pub use tuple::{Append, ConsGetter, Here, IntoRev, There};
pub use vecmap::VecMap;

use vstd::prelude::*;

verus! {

/// Relies on `Vec::capacity`: the capacity is never below the length.
#[verifier::external_body]
pub(crate) fn vec_capacity<T>(v: &Vec<T>) -> (r: usize)
    ensures
        r >= v@.len(),
{
    v.capacity()
}

} // verus!
