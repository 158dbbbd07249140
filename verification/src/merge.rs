//! The merge iterator: either drains the in-memory pass-through
//! queue, or performs a k-way merge over the spilled runs, decoding
//! one lookahead item per run and emitting the least head each step.

use vstd::multiset::Multiset;
use vstd::prelude::*;

use std::collections::VecDeque;

use crate::segment::{seg_msets, Segment};
use crate::sortable::{is_prefix, sorted_le, stream_of, Sortable};
use crate::vec_sort::reversed;

verus! {

/// An open read cursor over one run: the run's bytes, the position
/// of the next undecoded byte, and (ghost) the run's full item
/// sequence together with the items not yet decoded past the
/// lookahead slot.
pub(crate) struct SegmentReader<T: Sortable> {
    pub(crate) bytes: Vec<u8>,
    pub(crate) pos: usize,
    pub(crate) items: Ghost<Seq<T>>,
    pub(crate) rest: Ghost<Seq<T>>,
}

impl<T: Sortable> SegmentReader<T> {
    /// Well-formed together with the run's lookahead slot: the bytes
    /// are the stream of the run's sorted items; while a head is
    /// present, the unread bytes are exactly the stream of the
    /// undecoded items and the head precedes them all; an exhausted
    /// run has nothing left.
    pub(crate) open spec fn wf(self, head: Option<T>) -> bool {
        &&& self.bytes@ == stream_of(self.items@)
        &&& sorted_le(self.items@)
        &&& match head {
            Some(h) => {
                &&& self.pos <= self.bytes@.len()
                &&& self.bytes@.skip(self.pos as int) == stream_of(self.rest@)
                &&& sorted_le(seq![h] + self.rest@)
            },
            None => self.rest@.len() == 0,
        }
    }

    /// The run's undelivered items: the lookahead slot plus the
    /// undecoded tail.
    pub(crate) open spec fn rem(self, head: Option<T>) -> Multiset<T> {
        match head {
            Some(h) => self.rest@.to_multiset().insert(h),
            None => Multiset::empty(),
        }
    }
}

/// The undelivered items of the first `n` runs.
pub(crate) open spec fn rems_upto<T: Sortable>(
    readers: Seq<SegmentReader<T>>,
    heads: Seq<Option<T>>,
    n: int,
) -> Multiset<T>
    decreases n,
{
    if n <= 0 {
        Multiset::empty()
    } else {
        rems_upto(readers, heads, n - 1).add(readers[n - 1].rem(heads[n - 1]))
    }
}

/// The first `n` runs' undelivered items depend only on the first
/// `n` entries.
pub(crate) proof fn lemma_rems_upto_agree<T: Sortable>(
    r1: Seq<SegmentReader<T>>,
    h1: Seq<Option<T>>,
    r2: Seq<SegmentReader<T>>,
    h2: Seq<Option<T>>,
    n: int,
)
    requires
        n <= r1.len(),
        n <= h1.len(),
        n <= r2.len(),
        n <= h2.len(),
        forall|i: int| 0 <= i < n ==> #[trigger] r1[i] == r2[i],
        forall|i: int| 0 <= i < n ==> #[trigger] h1[i] == h2[i],
    ensures
        rems_upto(r1, h1, n) == rems_upto(r2, h2, n),
    decreases n,
{
    if n > 0 {
        lemma_rems_upto_agree(r1, h1, r2, h2, n - 1);
    }
}

/// Replacing one run's cursor and head swaps its old contribution
/// for the new one.
pub(crate) proof fn lemma_rems_upto_update<T: Sortable>(
    readers: Seq<SegmentReader<T>>,
    heads: Seq<Option<T>>,
    idx: int,
    r2: SegmentReader<T>,
    h2: Option<T>,
    n: int,
)
    requires
        0 <= idx < n,
        n <= readers.len(),
        readers.len() == heads.len(),
    ensures
        rems_upto(readers.update(idx, r2), heads.update(idx, h2), n).add(
            readers[idx].rem(heads[idx]),
        ) == rems_upto(readers, heads, n).add(r2.rem(h2)),
    decreases n,
{
    let ru = readers.update(idx, r2);
    let hu = heads.update(idx, h2);
    if idx == n - 1 {
        lemma_rems_upto_agree(ru, hu, readers, heads, n - 1);
        assert(rems_upto(ru, hu, n) == rems_upto(readers, heads, n - 1).add(r2.rem(h2)));
        assert(rems_upto(ru, hu, n).add(readers[idx].rem(heads[idx])) =~= rems_upto(
            readers,
            heads,
            n,
        ).add(r2.rem(h2)));
    } else {
        lemma_rems_upto_update(readers, heads, idx, r2, h2, n - 1);
        assert(ru[n - 1] == readers[n - 1] && hu[n - 1] == heads[n - 1]);
        assert(rems_upto(ru, hu, n) == rems_upto(ru, hu, n - 1).add(
            readers[n - 1].rem(heads[n - 1]),
        ));
        assert(rems_upto(readers, heads, n) == rems_upto(readers, heads, n - 1).add(
            readers[n - 1].rem(heads[n - 1]),
        ));
        assert forall|y: T|
            rems_upto(ru, hu, n).add(readers[idx].rem(heads[idx])).count(y) == rems_upto(
                readers,
                heads,
                n,
            ).add(r2.rem(h2)).count(y) by {
            assert(rems_upto(ru, hu, n - 1).add(readers[idx].rem(heads[idx])).count(y)
                == rems_upto(readers, heads, n - 1).add(r2.rem(h2)).count(y));
        }
        assert(rems_upto(ru, hu, n).add(readers[idx].rem(heads[idx])) =~= rems_upto(
            readers,
            heads,
            n,
        ).add(r2.rem(h2)));
    }
}

/// When every head is empty nothing is left.
pub(crate) proof fn lemma_rems_upto_all_none<T: Sortable>(
    readers: Seq<SegmentReader<T>>,
    heads: Seq<Option<T>>,
    n: int,
)
    requires
        n <= readers.len(),
        n <= heads.len(),
        forall|i: int| 0 <= i < n ==> #[trigger] heads[i] is None,
    ensures
        rems_upto(readers, heads, n) == Multiset::<T>::empty(),
    decreases n,
{
    if n > 0 {
        lemma_rems_upto_all_none(readers, heads, n - 1);
        assert(rems_upto(readers, heads, n) =~= Multiset::<T>::empty());
    }
}

/// Every undelivered item belongs to some run.
pub(crate) proof fn lemma_rems_upto_member<T: Sortable>(
    readers: Seq<SegmentReader<T>>,
    heads: Seq<Option<T>>,
    n: int,
    y: T,
)
    requires
        n <= readers.len(),
        n <= heads.len(),
        rems_upto(readers, heads, n).count(y) > 0,
    ensures
        exists|i: int| 0 <= i < n && #[trigger] readers[i].rem(heads[i]).count(y) > 0,
    decreases n,
{
    if n > 0 {
        if readers[n - 1].rem(heads[n - 1]).count(y) > 0 {
        } else {
            lemma_rems_upto_member(readers, heads, n - 1, y);
        }
    }
}

/// The undelivered items of the first `n` runs contain at least run
/// `i`'s share.
pub(crate) proof fn lemma_rems_upto_lower<T: Sortable>(
    readers: Seq<SegmentReader<T>>,
    heads: Seq<Option<T>>,
    i: int,
    n: int,
    y: T,
)
    requires
        0 <= i < n,
        n <= readers.len(),
        n <= heads.len(),
    ensures
        rems_upto(readers, heads, n).count(y) >= readers[i].rem(heads[i]).count(y),
    decreases n,
{
    if i < n - 1 {
        lemma_rems_upto_lower(readers, heads, i, n - 1, y);
    }
}

/// Anything a run still holds is at or above a value that precedes
/// the run's head.
pub(crate) proof fn lemma_rem_min<T: Sortable>(rd: SegmentReader<T>, h: T, v: T, y: T)
    requires
        rd.wf(Some(h)),
        rd.rem(Some(h)).count(y) > 0,
        v.le_spec(h),
    ensures
        v.le_spec(y),
{
    broadcast use vstd::seq_lib::group_to_multiset_ensures;

    let s = seq![h] + rd.rest@;
    if y == h {
    } else {
        assert(rd.rest@.to_multiset().count(y) > 0);
        assert(rd.rest@.contains(y));
        let j = choose|j: int| 0 <= j < rd.rest@.len() && rd.rest@[j] == y;
        assert(s[0] == h && s[j + 1] == y);
        assert(h.le_spec(y));
        T::lemma_le_transitive(v, h, y);
    }
}

/// Decode one item from the cursor into the lookahead slot: the slot
/// takes the run's next undelivered item, or reports the run
/// exhausted, and either way the cursor stays well-formed and keeps
/// exactly the undelivered items.
fn advance<T: Sortable>(rd: &mut SegmentReader<T>) -> (h: Option<T>)
    requires
        old(rd).bytes@ == stream_of(old(rd).items@),
        sorted_le(old(rd).items@),
        old(rd).pos <= old(rd).bytes@.len(),
        old(rd).bytes@.skip(old(rd).pos as int) == stream_of(old(rd).rest@),
        sorted_le(old(rd).rest@),
    ensures
        final(rd).bytes@ == old(rd).bytes@,
        final(rd).items@ == old(rd).items@,
        final(rd).wf(h),
        final(rd).rem(h) == old(rd).rest@.to_multiset(),
        h matches Some(x) ==> old(rd).rest@.len() > 0 && x == old(rd).rest@[0],
        h is None ==> old(rd).rest@.len() == 0,
{
    let ghost items = rd.rest@;
    let pos = rd.pos;
    let ghost s = rd.bytes@.skip(pos as int);
    let r = T::decode(rd.bytes.as_slice(), pos);
    proof {
        broadcast use vstd::seq_lib::group_to_multiset_ensures;

        if items.len() == 0 {
            assert(stream_of(items) =~= Seq::<u8>::empty());
            assert(r is None) by {
                if r is Some {
                    assert(r->Some_0.1 > pos && r->Some_0.1 <= rd.bytes@.len());
                }
            }
            assert(items.to_multiset() =~= Multiset::<T>::empty());
        } else {
            assert(is_prefix(items[0].encoding(), s)) by {
                assert(stream_of(items) == items[0].encoding() + stream_of(items.drop_first()));
                assert(items[0].encoding() =~= s.take(items[0].encoding().len() as int));
            }
            assert(r is Some);
        }
    }
    match r {
        Some((item, p)) => {
            proof {
                broadcast use vstd::seq_lib::group_to_multiset_ensures;

                assert(rd.bytes@.subrange(pos as int, p as int) == item.encoding());
                assert(is_prefix(item.encoding(), s)) by {
                    assert forall|i: int| 0 <= i < p - pos implies s[i] == item.encoding()[i] by {
                        assert(s[i] == rd.bytes@[pos + i]);
                    }
                    assert(item.encoding() =~= s.take(item.encoding().len() as int));
                }
                crate::sortable::lemma_decoded_first(items, item);
                assert(item == items[0]);
                assert(p == pos + items[0].encoding().len());
            }
            rd.pos = p;
            rd.rest = Ghost(items.drop_first());
            proof {
                broadcast use vstd::seq_lib::group_to_multiset_ensures;

                assert(rd.bytes@.skip(p as int) =~= stream_of(items.drop_first())) by {
                    assert(stream_of(items) == items[0].encoding() + stream_of(
                        items.drop_first(),
                    ));
                    assert forall|i: int| 0 <= i < rd.bytes@.len() - p implies rd.bytes@.skip(
                        p as int,
                    )[i] == stream_of(items.drop_first())[i] by {
                        assert(rd.bytes@.skip(p as int)[i] == s[p - pos + i]);
                    }
                }
                assert(seq![item] + items.drop_first() =~= items);
                assert(rd.wf(Some(item)));
                assert(items.remove(0) =~= items.drop_first());
                assert(items.drop_first().to_multiset() == items.to_multiset().remove(items[0]));
                assert(items.to_multiset().count(items[0]) > 0) by {
                    assert(items.contains(items[0]));
                }
                assert(rd.rem(Some(item)) =~= items.to_multiset());
            }
            Some(item)
        },
        None => {
            proof {
                assert(rd.wf(None));
                assert(rd.rem(None) =~= items.to_multiset());
            }
            None
        },
    }
}

/// A lazy non-decreasing iterator over the sorted input: it pops the
/// pass-through queue when no run was spilled, and otherwise emits
/// the least lookahead item across all runs, refilling that run's
/// slot from its bytes.
pub struct SortedIterator<T: Sortable> {
    pass_through_queue: Option<VecDeque<T>>,
    segments: Vec<SegmentReader<T>>,
    next_values: Vec<Option<T>>,
}

impl<T: Sortable> SortedIterator<T> {
    /// The whole input fit in memory: no run was spilled.
    pub closed spec fn is_pass_through(self) -> bool {
        self.pass_through_queue is Some
    }

    /// How many runs were spilled.
    pub closed spec fn spec_segment_count(self) -> int {
        self.segments@.len() as int
    }

    /// The multiset of items not yet emitted.
    pub closed spec fn remaining(self) -> Multiset<T> {
        match self.pass_through_queue {
            Some(q) => q@.to_multiset(),
            None => rems_upto(self.segments@, self.next_values@, self.segments@.len() as int),
        }
    }

    /// The byte image of run `i`.
    pub closed spec fn spec_segment_bytes(self, i: int) -> Seq<u8> {
        self.segments@[i].bytes@
    }

    /// The items of run `i`, in the run's own (sorted) order.
    pub closed spec fn spec_segment_items(self, i: int) -> Seq<T> {
        self.segments@[i].items@
    }

    /// The iterator's invariant: one lookahead slot per run; the
    /// queue is present only when no run exists, and is sorted; each
    /// cursor is well-formed with its slot.
    pub closed spec fn wf(self) -> bool {
        &&& self.segments@.len() == self.next_values@.len()
        &&& match self.pass_through_queue {
            Some(q) => self.segments@.len() == 0 && sorted_le(q@),
            None => forall|i: int|
                0 <= i < self.segments@.len() ==> #[trigger] self.segments@[i].wf(
                    self.next_values@[i],
                ),
        }
    }

    /// How many runs were spilled; zero means the sort passed
    /// through memory.
    pub fn segment_count(&self) -> (r: usize)
        ensures
            r == self.spec_segment_count(),
    {
        self.segments.len()
    }

    /// The bytes of run `i`, exactly as a flush produced them.
    pub fn segment_bytes(&self, i: usize) -> (r: &Vec<u8>)
        requires
            i < self.spec_segment_count(),
        ensures
            r@ == self.spec_segment_bytes(i as int),
    {
        &self.segments[i].bytes
    }

    /// Emit the least undelivered item, or report the end.  A
    /// returned item is a least element of what remained and exactly
    /// one copy of it is delivered; `None` comes only once nothing
    /// remains.  Ties go to the lowest run index (and the pass-through
    /// queue keeps its order), so the output order is deterministic.
    pub fn next(&mut self) -> (r: Option<T>)
        requires
            old(self).wf(),
        ensures
            final(self).wf(),
            final(self).is_pass_through() == old(self).is_pass_through(),
            final(self).spec_segment_count() == old(self).spec_segment_count(),
            forall|i: int|
                0 <= i < old(self).spec_segment_count() ==> final(self).spec_segment_bytes(i)
                    == old(self).spec_segment_bytes(i),
            forall|i: int|
                0 <= i < old(self).spec_segment_count() ==> final(self).spec_segment_items(i)
                    == old(self).spec_segment_items(i),
            match r {
                None => final(self).remaining() == old(self).remaining() && old(
                    self,
                ).remaining().len() == 0,
                Some(v) => {
                    &&& old(self).remaining().count(v) > 0
                    &&& final(self).remaining() == old(self).remaining().remove(v)
                    &&& forall|y: T| final(self).remaining().count(y) > 0 ==> v.le_spec(y)
                },
            },
    {
        if self.pass_through_queue.is_some() {
            let q = self.pass_through_queue.as_mut().unwrap();
            let ghost qv = q@;
            let r = q.pop_front();
                proof {
                    broadcast use vstd::seq_lib::group_to_multiset_ensures;

                    if qv.len() == 0 {
                        assert(qv.to_multiset().len() == 0);
                    } else {
                        assert(q@ =~= qv.remove(0));
                        assert(q@.to_multiset() == qv.to_multiset().remove(qv[0]));
                        assert(qv.to_multiset().count(qv[0]) > 0) by {
                            assert(qv.contains(qv[0]));
                        }
                        assert(sorted_le(q@)) by {
                            assert forall|i: int, j: int|
                                0 <= i < j < q@.len() implies #[trigger] q@[i].le_spec(
                                #[trigger] q@[j],
                            ) by {
                                assert(q@[i] == qv[i + 1] && q@[j] == qv[j + 1]);
                            }
                        }
                        assert forall|y: T| q@.to_multiset().count(y) > 0 implies qv[0].le_spec(
                            y,
                        ) by {
                            assert(q@.contains(y));
                            let j = choose|j: int| 0 <= j < q@.len() && q@[j] == y;
                            assert(qv[j + 1] == y);
                        }
                    }
                }
                r
            } else {
                let n = self.segments.len();
                let mut smallest_idx: usize = 0;
                let mut found: bool = false;
                let mut idx: usize = 0;
                while idx < n
                    invariant
                        old(self).wf(),
                        self == old(self),
                        !(self.pass_through_queue is Some),
                        n == self.segments@.len(),
                        self.next_values@.len() == n,
                        idx <= n,
                        found ==> smallest_idx < idx && self.next_values@[smallest_idx as int]
                            is Some,
                        found ==> forall|j: int|
                            0 <= j < idx && (#[trigger] self.next_values@[j]) is Some
                                ==> self.next_values@[smallest_idx as int].unwrap().le_spec(
                                self.next_values@[j].unwrap(),
                            ),
                        !found ==> forall|j: int|
                            0 <= j < idx ==> (#[trigger] self.next_values@[j]) is None,
                    decreases n - idx,
                {
                    if self.next_values[idx].is_some() {
                        if !found {
                            found = true;
                            smallest_idx = idx;
                            proof {
                                let sv = self.next_values@[idx as int].unwrap();
                                T::lemma_le_total(sv, sv);
                            }
                        } else {
                            let cand = self.next_values[idx].as_ref().unwrap();
                            let cur = self.next_values[smallest_idx].as_ref().unwrap();
                            if !cur.le(cand) {
                                proof {
                                    let cv = self.next_values@[idx as int].unwrap();
                                    let sv = self.next_values@[smallest_idx as int].unwrap();
                                    T::lemma_le_total(sv, cv);
                                    assert forall|j: int|
                                        0 <= j < idx + 1 && (#[trigger] self.next_values@[j])
                                            is Some implies cv.le_spec(
                                        self.next_values@[j].unwrap(),
                                    ) by {
                                        if j < idx {
                                            T::lemma_le_transitive(
                                                cv,
                                                sv,
                                                self.next_values@[j].unwrap(),
                                            );
                                        } else {
                                            T::lemma_le_total(cv, cv);
                                        }
                                    }
                                }
                                smallest_idx = idx;
                            }
                        }
                    }
                    idx += 1;
                }
                if !found {
                    proof {
                        lemma_rems_upto_all_none(self.segments@, self.next_values@, n as int);
                    }
                    None
                } else {
                    let idx = smallest_idx;
                    let ghost old_readers = self.segments@;
                    let ghost old_heads = self.next_values@;
                    let ghost v = old_heads[idx as int].unwrap();
                    proof {
                        assert(old_readers[idx as int].wf(old_heads[idx as int]));
                        let rest = old_readers[idx as int].rest@;
                        let s0 = seq![v] + rest;
                        assert(sorted_le(rest)) by {
                            assert forall|i: int, j: int|
                                0 <= i < j < rest.len() implies #[trigger] rest[i].le_spec(
                                #[trigger] rest[j],
                            ) by {
                                assert(s0[i + 1] == rest[i] && s0[j + 1] == rest[j]);
                            }
                        }
                    }
                    let new_head = advance(&mut self.segments[idx]);
                    let mut slot = new_head;
                    core::mem::swap(&mut slot, &mut self.next_values[idx]);
                    proof {
                        broadcast use vstd::seq_lib::group_to_multiset_ensures;

                        let new_rd = self.segments@[idx as int];
                        let nh = self.next_values@[idx as int];
                        assert(self.segments@ == old_readers.update(idx as int, new_rd));
                        assert(self.next_values@ == old_heads.update(idx as int, nh));
                        assert(slot == Some(v));
                        lemma_rems_upto_update(
                            old_readers,
                            old_heads,
                            idx as int,
                            new_rd,
                            nh,
                            n as int,
                        );
                        let rest_m = old_readers[idx as int].rest@.to_multiset();
                        assert(old_readers[idx as int].rem(old_heads[idx as int]) == rest_m.insert(
                            v,
                        ));
                        assert(new_rd.rem(nh) == rest_m);
                        let old_rem = rems_upto(old_readers, old_heads, n as int);
                        let new_rem = rems_upto(self.segments@, self.next_values@, n as int);
                        assert(new_rem.add(rest_m.insert(v)) == old_rem.add(rest_m));
                        lemma_rems_upto_lower(old_readers, old_heads, idx as int, n as int, v);
                        assert(old_rem.count(v) > 0);
                        assert(new_rem =~= old_rem.remove(v)) by {
                            assert forall|y: T|
                                new_rem.count(y) == old_rem.remove(v).count(y) by {
                                assert(new_rem.add(rest_m.insert(v)).count(y) == old_rem.add(
                                    rest_m,
                                ).count(y));
                                assert(new_rem.count(y) + rest_m.insert(v).count(y)
                                    == old_rem.count(y) + rest_m.count(y));
                            }
                        }
                        assert forall|y: T| new_rem.count(y) > 0 implies v.le_spec(y) by {
                            lemma_rems_upto_member(
                                self.segments@,
                                self.next_values@,
                                n as int,
                                y,
                            );
                            let i = choose|i: int|
                                0 <= i < n && (#[trigger] self.segments@[i].rem(
                                    self.next_values@[i],
                                )).count(y) > 0;
                            if i == idx {
                                T::lemma_le_total(v, v);
                                lemma_rem_min(old_readers[idx as int], v, v, y);
                            } else {
                                assert(self.segments@[i] == old_readers[i]);
                                assert(self.next_values@[i] == old_heads[i]);
                                assert(old_heads[i] is Some);
                                let h_i = old_heads[i].unwrap();
                                assert(v.le_spec(h_i));
                                lemma_rem_min(old_readers[i], h_i, v, y);
                            }
                        }
                        assert forall|i: int|
                            0 <= i < n implies #[trigger] self.segments@[i].wf(
                            self.next_values@[i],
                        ) by {
                            if i != idx {
                                assert(self.segments@[i] == old_readers[i]);
                            }
                        }
                        assert forall|i: int|
                            0 <= i < n implies #[trigger] self.segments@[i].bytes@
                                == old_readers[i].bytes@ by {}
                        assert forall|i: int|
                            0 <= i < n implies #[trigger] self.segments@[i].items@
                                == old_readers[i].items@ by {}
                    }
                    slot
                }
            }
    }

    /// Deliver every remaining item into a vector: the result is
    /// sorted and holds exactly the undelivered multiset.
    pub fn into_vec(self) -> (r: Vec<T>)
        requires
            self.wf(),
        ensures
            sorted_le(r@),
            r@.to_multiset() == self.remaining(),
    {
        let ghost total = self.remaining();
        let mut it = self;
        let mut out: Vec<T> = Vec::new();
        let mut going = true;
        proof {
            broadcast use vstd::seq_lib::group_to_multiset_ensures;

            assert(out@.to_multiset().add(it.remaining()) =~= total);
        }
        while going
            invariant
                it.wf(),
                sorted_le(out@),
                out@.to_multiset().add(it.remaining()) == total,
                forall|y: T|
                    it.remaining().count(y) > 0 ==> out@.len() == 0 || out@.last().le_spec(y),
                !going ==> it.remaining().len() == 0,
            decreases it.remaining().len() + (if going {
                1int
            } else {
                0int
            }),
        {
            let ghost old_out = out@;
            let ghost old_rem = it.remaining();
            match it.next() {
                Some(x) => {
                    proof {
                        broadcast use vstd::seq_lib::group_to_multiset_ensures;

                        assert(old_rem.count(x) > 0);
                        assert(old_out.len() > 0 ==> old_out.last().le_spec(x));
                        assert(sorted_le(old_out.push(x))) by {
                            let o = old_out.push(x);
                            assert forall|i: int, j: int|
                                0 <= i < j < o.len() implies #[trigger] o[i].le_spec(
                                #[trigger] o[j],
                            ) by {
                                if j == o.len() - 1 && i < old_out.len() - 1 {
                                    T::lemma_le_transitive(old_out[i], old_out.last(), x);
                                }
                            }
                        }
                        assert(out@.push(x).to_multiset().add(it.remaining()) =~= total) by {
                            assert(old_rem.count(x) > 0);
                            assert forall|y: T|
                                out@.push(x).to_multiset().add(it.remaining()).count(y)
                                    == total.count(y) by {
                                assert(out@.push(x).to_multiset() == out@.to_multiset().insert(
                                    x,
                                ));
                                assert(it.remaining() == old_rem.remove(x));
                            }
                        }
                    }
                    out.push(x);
                },
                None => {
                    going = false;
                },
            }
        }
        out
    }

    /// Open a cursor on every run and fill each lookahead slot with
    /// the run's first item.
    pub(crate) fn new(
        pass_through_queue: Option<VecDeque<T>>,
        segments: Vec<Segment<T>>,
    ) -> (it: SortedIterator<T>)
        requires
            match pass_through_queue {
                Some(q) => segments@.len() == 0 && sorted_le(q@),
                None => forall|i: int| 0 <= i < segments@.len() ==> #[trigger] segments@[i].wf(),
            },
        ensures
            it.wf(),
            it.is_pass_through() == pass_through_queue is Some,
            it.spec_segment_count() == segments@.len(),
            it.remaining() == match pass_through_queue {
                Some(q) => q@.to_multiset(),
                None => seg_msets(segments@),
            },
            forall|i: int|
                0 <= i < segments@.len() ==> it.spec_segment_bytes(i) == #[trigger] segments@[i].bytes@,
            forall|i: int|
                0 <= i < segments@.len() ==> it.spec_segment_items(i) == #[trigger] segments@[i].items@,
    {
        let ghost orig = segments@;
        let mut rev = reversed(segments);
        let mut readers: Vec<SegmentReader<T>> = Vec::new();
        let mut next_values: Vec<Option<T>> = Vec::new();
        proof {
            assert(orig.skip(0) =~= orig);
            assert(orig.take(0) =~= Seq::<Segment<T>>::empty());
            assert(rems_upto(readers@, next_values@, 0) == seg_msets(orig.take(0)));
        }
        while rev.len() > 0
            invariant
                readers@.len() == next_values@.len(),
                readers@.len() + rev@.len() == orig.len(),
                rev@ == orig.skip(readers@.len() as int).reverse(),
                forall|i: int| 0 <= i < orig.len() ==> #[trigger] orig[i].wf(),
                forall|i: int|
                    0 <= i < readers@.len() ==> #[trigger] readers@[i].wf(next_values@[i]),
                forall|i: int|
                    0 <= i < readers@.len() ==> #[trigger] readers@[i].bytes@ == orig[i].bytes@,
                forall|i: int|
                    0 <= i < readers@.len() ==> #[trigger] readers@[i].items@ == orig[i].items@,
                rems_upto(readers@, next_values@, readers@.len() as int) == seg_msets(
                    orig.take(readers@.len() as int),
                ),
            decreases rev@.len(),
        {
            let ghost k = readers@.len() as int;
            let ghost l = orig.len() as int;
            proof {
                assert(rev@.last() == orig.skip(k)[l - k - 1 - (rev@.len() - 1)]);
                assert(rev@.last() == orig[k]);
            }
            let seg = rev.pop().unwrap();
            let ghost items = seg.items@;
            proof {
                assert(seg == orig[k]);
                assert(rev@ =~= orig.skip(k + 1).reverse()) by {
                    assert forall|i: int| 0 <= i < l - k - 1 implies rev@[i] == orig.skip(
                        k + 1,
                    ).reverse()[i] by {
                        assert(rev@[i] == orig.skip(k).reverse()[i]);
                        assert(orig.skip(k).reverse()[i] == orig.skip(k)[l - k - 1 - i]);
                        assert(orig.skip(k + 1).reverse()[i] == orig.skip(k + 1)[l - k - 2 - i]);
                    }
                }
                assert(orig[k].wf());
                assert(seg.bytes@ == stream_of(items) && sorted_le(items));
            }
            let ghost old_readers = readers@;
            let ghost old_heads = next_values@;
            let mut reader = SegmentReader {
                bytes: seg.bytes,
                pos: 0,
                items: Ghost(items),
                rest: Ghost(items),
            };
            proof {
                assert(reader.bytes@.skip(0) =~= reader.bytes@);
            }
            let h = advance(&mut reader);
            proof {
                assert(reader.rem(h) == orig[k].mset());
            }
            readers.push(reader);
            next_values.push(h);
            proof {
                let r0 = readers@.last();
                let h0 = next_values@.last();
                assert(readers@ == old_readers.push(r0));
                lemma_rems_upto_agree(readers@, next_values@, old_readers, old_heads, k);
                assert(rems_upto(readers@, next_values@, k + 1) == rems_upto(
                    readers@,
                    next_values@,
                    k,
                ).add(readers@[k].rem(next_values@[k])));
                assert(readers@[k] == r0 && next_values@[k] == h0);
                assert(orig.take(k + 1) =~= orig.take(k).push(orig[k]));
                crate::segment::lemma_seg_msets_push(orig.take(k), orig[k]);
                assert(r0.rem(h0) == orig[k].mset());
                assert(rems_upto(readers@, next_values@, k + 1) == seg_msets(orig.take(k + 1)));
            }
        }
        proof {
            assert(orig.take(orig.len() as int) =~= orig);
        }
        SortedIterator { pass_through_queue, segments: readers, next_values }
    }
}

} // verus!
