//! A spilled run: the byte image of a sorted sequence of encoded
//! items, immutable once produced.

use vstd::multiset::Multiset;
use vstd::prelude::*;

use crate::sortable::{sorted_le, stream_of, Sortable};

verus! {

/// One run of sorted items, held as the bytes that their encodings
/// concatenate to.  The items themselves are ghost: they are what the
/// bytes decode back to.
pub(crate) struct Segment<T: Sortable> {
    pub(crate) bytes: Vec<u8>,
    pub(crate) items: Ghost<Seq<T>>,
}

impl<T: Sortable> Segment<T> {
    /// The bytes are exactly the stream of the items, and the items
    /// are sorted.
    pub(crate) open spec fn wf(self) -> bool {
        &&& self.bytes@ == stream_of(self.items@)
        &&& sorted_le(self.items@)
    }

    /// The run's multiset of items.
    pub(crate) open spec fn mset(self) -> Multiset<T> {
        self.items@.to_multiset()
    }
}

/// The multiset of items held by a sequence of runs.
pub(crate) open spec fn seg_msets<T: Sortable>(segs: Seq<Segment<T>>) -> Multiset<T>
    decreases segs.len(),
{
    if segs.len() == 0 {
        Multiset::empty()
    } else {
        seg_msets(segs.drop_last()).add(segs.last().mset())
    }
}

/// Appending a run adds exactly its items.
pub(crate) proof fn lemma_seg_msets_push<T: Sortable>(segs: Seq<Segment<T>>, s: Segment<T>)
    ensures
        seg_msets(segs.push(s)) == seg_msets(segs).add(s.mset()),
{
    assert(segs.push(s).drop_last() =~= segs);
    assert(segs.push(s).last() == s);
}

} // verus!
