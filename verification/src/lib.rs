//! External sorting: sort a sequence of items that may be larger than
//! memory by buffering a bounded number of items, spilling presorted
//! runs as encoded byte segments, and merging the runs back into one
//! non-decreasing output sequence.
//!
//! Serialization is left to the caller: an item type implements
//! [`Sortable`], which supplies a total order together with a
//! self-delimiting encode/decode pair.

use vstd::prelude::*;

pub mod merge;
pub mod segment;
pub mod sortable;
pub mod sorter;
pub mod vec_sort;

pub use merge::SortedIterator;
pub use sortable::Sortable;
pub use sorter::ExternalSorter;

verus! {

} // verus!
