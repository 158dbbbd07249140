//! Run generation: buffer up to a configured number of items, spill
//! each overfull buffer as a sorted run, and hand everything to the
//! merge iterator.

use vstd::multiset::Multiset;
use vstd::prelude::*;

use std::collections::VecDeque;

use crate::merge::SortedIterator;
use crate::segment::{lemma_seg_msets_push, seg_msets, Segment};
use crate::sortable::{sorted_le, stream_of, Sortable};
use crate::vec_sort::{reversed, sort_vec};

verus! {

/// How many runs a sort of `n` items spills under the buffer bound
/// `max`: none when the whole input fits in the buffer; otherwise one
/// full run for every `max + 1` items consumed, plus one more for a
/// non-empty residue.
pub open spec fn spill_count(n: nat, max: nat) -> nat {
    if n <= max {
        0
    } else {
        n / (max + 1) + if n % (max + 1) == 0 {
            0nat
        } else {
            1nat
        }
    }
}

/// The slice of the input that run `i` of `count` holds: each full
/// run takes the next `max + 1` consecutive input items, and the last
/// run whatever is left.
pub open spec fn run_slice<T>(input: Seq<T>, max: nat, count: int, i: int) -> Seq<T> {
    if i == count - 1 {
        input.subrange(i * (max + 1), input.len() as int)
    } else {
        input.subrange(i * (max + 1), (i + 1) * (max + 1))
    }
}

/// For an overfull input the number of spilled runs is the ceiling
/// of `(n - 1) / max`, as long as the division of the input into full
/// runs of `max + 1` items leaves the quotient and residue small
/// enough (`n / (max + 1) + n % (max + 1)` at most `max + 1`, with a
/// zero residue only for a single full run); past that the engine
/// spills fewer runs than the ceiling formula counts.
pub proof fn lemma_spill_count_ceiling(n: nat, max: nat)
    requires
        max >= 1,
        n > max,
        n % (max + 1) >= 1 ==> n / (max + 1) + n % (max + 1) <= max + 1,
        n % (max + 1) == 0 ==> n == max + 1,
    ensures
        spill_count(n, max) == (n as int + max as int - 2) / (max as int),
{
    let d = max as int + 1;
    let m = max as int;
    let q = n as int / d;
    let r = n as int % d;
    let f = n as int + m - 2;
    vstd::arithmetic::div_mod::lemma_fundamental_div_mod(n as int, d);
    vstd::arithmetic::div_mod::lemma_mod_division_less_than_divisor(n as int, d);
    assert(n as int == d * q + r);
    assert(q >= 0) by (nonlinear_arith)
        requires
            n as int == d * q + r,
            0 <= r < d,
            n as int >= 0,
            d >= 2,
    ;
    if r == 0 {
        assert(n == max + 1);
        assert(q == 1) by (nonlinear_arith)
            requires
                n as int == d * q + r,
                r == 0,
                n as int == d,
                d > 1,
        ;
        assert(spill_count(n, max) == 1);
        assert(f == 1 * m + (m - 1));
        vstd::arithmetic::div_mod::lemma_fundamental_div_mod_converse(f, m, 1, m - 1);
    } else {
        assert(q >= 1) by (nonlinear_arith)
            requires
                n as int == d * q + r,
                0 <= r < d,
                n as int > d - 1,
                d >= 1,
                q >= 0,
        ;
        assert(spill_count(n, max) == q + 1);
        assert(f == (q + 1) * m + (q + r - 2)) by (nonlinear_arith)
            requires
                n as int == d * q + r,
                d == m + 1,
                f == n as int + m - 2,
        ;
        assert(0 <= q + r - 2 < m);
        vstd::arithmetic::div_mod::lemma_fundamental_div_mod_converse(f, m, q + 1, q + r - 2);
    }
}

/// The sorting engine: a buffer bound and an optional scratch
/// directory for callers that spill runs to disk.
pub struct ExternalSorter {
    max_size: usize,
    sort_dir: Option<String>,
}

impl ExternalSorter {
    /// The inclusive bound on buffered items before a spill.
    pub closed spec fn spec_max_size(self) -> usize {
        self.max_size
    }

    /// The caller-chosen scratch directory, if any.
    pub closed spec fn spec_sort_dir(self) -> Option<String> {
        self.sort_dir
    }

    pub fn new() -> (s: ExternalSorter)
        ensures
            s.spec_max_size() == 10000usize,
            s.spec_sort_dir() is None,
    {
        ExternalSorter { max_size: 10000, sort_dir: None }
    }

    /// Set maximum number of items we can buffer in memory
    pub fn set_max_size(&mut self, max_size: usize)
        ensures
            final(self).spec_max_size() == max_size,
            final(self).spec_sort_dir() == old(self).spec_sort_dir(),
    {
        self.max_size = max_size;
    }

    /// Set directory in which sorted segments will be written (if it doesn't fit in memory)
    pub fn set_sort_dir(&mut self, path: String)
        ensures
            final(self).spec_sort_dir() == Some(path),
            final(self).spec_max_size() == old(self).spec_max_size(),
    {
        self.sort_dir = Some(path);
    }

    /// The configured scratch directory, for callers that place run
    /// files themselves.
    pub fn sort_dir(&self) -> (r: &Option<String>)
        ensures
            *r == self.spec_sort_dir(),
    {
        &self.sort_dir
    }

    /// Sort the given items, returning a new iterator that yields them
    /// in non-decreasing order.  The input is consumed in order, a
    /// sorted run is spilled whenever more than the configured bound
    /// is buffered, and the whole input stays in memory otherwise:
    /// the iterator is a pass-through with no run exactly when the
    /// input fits the bound, and spills `spill_count` runs otherwise.
    pub fn sort<T: Sortable>(&self, input: Vec<T>) -> (it: SortedIterator<T>)
        ensures
            it.wf(),
            it.remaining() == input@.to_multiset(),
            it.spec_segment_count() == spill_count(
                input@.len(),
                self.spec_max_size() as nat,
            ),
            it.is_pass_through() <==> input@.len() <= self.spec_max_size(),
            forall|i: int|
                0 <= i < it.spec_segment_count() ==> sorted_le(#[trigger] it.spec_segment_items(i))
                    && it.spec_segment_bytes(i) == stream_of(it.spec_segment_items(i))
                    && it.spec_segment_items(i).to_multiset() == run_slice(
                    input@,
                    self.spec_max_size() as nat,
                    it.spec_segment_count(),
                    i,
                ).to_multiset(),
    {
        let ghost orig = input@;
        let ghost m = self.max_size as int;
        let max = self.max_size;
        let mut rest = reversed(input);
        let mut segments: Vec<Segment<T>> = Vec::new();
        let mut buffer: Vec<T> = Vec::new();
        proof {
            broadcast use vstd::seq_lib::group_to_multiset_ensures;

            assert(rest@ =~= orig.skip(orig.len() - rest@.len() as int).reverse());
            assert(orig.take(0) =~= Seq::<T>::empty());
            assert(buffer@ =~= orig.subrange(0, 0));
            assert(seg_msets(segments@).add(buffer@.to_multiset()) =~= orig.take(
                0,
            ).to_multiset());
        }
        while rest.len() > 0
            invariant
                m == max as int,
                buffer@.len() <= max,
                rest@.len() <= orig.len(),
                rest@ == orig.skip(orig.len() - rest@.len() as int).reverse(),
                orig.len() - rest@.len() == segments@.len() * (m + 1) + buffer@.len(),
                forall|i: int| 0 <= i < segments@.len() ==> #[trigger] segments@[i].wf(),
                forall|i: int|
                    0 <= i < segments@.len() ==> #[trigger] segments@[i].items@.len() == m + 1,
                forall|i: int|
                    0 <= i < segments@.len() ==> (#[trigger] segments@[i].items@).to_multiset()
                        == orig.subrange(i * (m + 1), (i + 1) * (m + 1)).to_multiset(),
                buffer@ == orig.subrange(
                    orig.len() - rest@.len() - buffer@.len(),
                    orig.len() - rest@.len() as int,
                ),
                seg_msets(segments@).add(buffer@.to_multiset()) == orig.take(
                    orig.len() - rest@.len() as int,
                ).to_multiset(),
            decreases rest@.len(),
        {
            let ghost c = orig.len() - rest@.len() as int;
            let ghost l = orig.len() as int;
            proof {
                assert(rest@.last() == orig.skip(c).reverse()[rest@.len() - 1]);
                assert(rest@.last() == orig[c]);
            }
            let x = rest.pop().unwrap();
            proof {
                assert(rest@ =~= orig.skip(c + 1).reverse()) by {
                    assert forall|i: int| 0 <= i < l - c - 1 implies rest@[i] == orig.skip(
                        c + 1,
                    ).reverse()[i] by {
                        assert(rest@[i] == orig.skip(c).reverse()[i]);
                        assert(orig.skip(c).reverse()[i] == orig.skip(c)[l - c - 1 - i]);
                        assert(orig.skip(c + 1).reverse()[i] == orig.skip(c + 1)[l - c - 2 - i]);
                    }
                }
            }
            let ghost old_buffer = buffer@;
            buffer.push(x);
            proof {
                broadcast use vstd::seq_lib::group_to_multiset_ensures;

                assert(orig.take(c + 1) =~= orig.take(c).push(orig[c]));
                assert(buffer@ =~= orig.subrange(c - old_buffer.len(), c + 1));
                assert(seg_msets(segments@).add(buffer@.to_multiset()) =~= orig.take(
                    c + 1,
                ).to_multiset());
            }
            if buffer.len() > max {
                let ghost q0 = segments@.len() as int;
                let full = buffer;
                buffer = Vec::new();
                Self::sort_and_write_segment(&mut segments, full);
                proof {
                    broadcast use vstd::seq_lib::group_to_multiset_ensures;

                    assert((q0 + 1) * (m + 1) == q0 * (m + 1) + (m + 1)) by (nonlinear_arith);
                    assert(segments@.len() == q0 + 1);
                    assert(old_buffer.len() == m);
                    assert(c + 1 == segments@.len() * (m + 1));
                    assert(segments@.last().items@.len() == m + 1);
                    assert(q0 * (m + 1) == c - m);
                    assert((q0 + 1) * (m + 1) == c + 1);
                    assert(segments@.last().mset() == orig.subrange(
                        q0 * (m + 1),
                        (q0 + 1) * (m + 1),
                    ).to_multiset());
                    assert(buffer@ =~= orig.subrange(c + 1, c + 1));
                    assert(buffer@.to_multiset() =~= Multiset::<T>::empty());
                    assert(seg_msets(segments@).add(buffer@.to_multiset()) =~= orig.take(
                        c + 1,
                    ).to_multiset());
                }
            }
        }
        let ghost n = orig.len() as int;
        proof {
            assert(orig.skip(0) =~= orig);
            assert(orig.take(n) =~= orig);
            assert(n == segments@.len() * (m + 1) + buffer@.len());
        }
        if segments.len() == 0 {
            let mut s = sort_vec(buffer);
            let ghost sall = s@;
            let mut q: VecDeque<T> = VecDeque::new();
            proof {
                assert(s@ =~= sall.take(s@.len() as int));
                assert(q@ =~= sall.skip(s@.len() as int));
            }
            while s.len() > 0
                invariant
                    s@.len() <= sall.len(),
                    s@ == sall.take(s@.len() as int),
                    q@ == sall.skip(s@.len() as int),
                decreases s@.len(),
            {
                let ghost k = s@.len() as int;
                let x = s.pop().unwrap();
                q.push_front(x);
                proof {
                    assert(s@ =~= sall.take(k - 1)) by {
                        assert forall|i: int| 0 <= i < k - 1 implies s@[i] == sall.take(
                            k - 1,
                        )[i] by {
                            assert(s@[i] == sall.take(k)[i]);
                        }
                    }
                    assert(x == sall[k - 1]);
                    assert(q@ =~= sall.skip(k - 1)) by {
                        assert forall|i: int| 0 <= i < sall.len() - k + 1 implies q@[i]
                            == sall.skip(k - 1)[i] by {
                            if i > 0 {
                                assert(q@[i] == sall.skip(k)[i - 1]);
                            }
                        }
                    }
                }
            }
            proof {
                assert(q@ =~= sall);
                assert(seg_msets(segments@) =~= Multiset::<T>::empty());
                assert(q@.to_multiset() =~= orig.to_multiset());
            }
            SortedIterator::new(Some(q), segments)
        } else {
            proof {
                assert(segments@.len() >= 1);
                assert(segments@.len() * (m + 1) >= m + 1) by (nonlinear_arith)
                    requires
                        segments@.len() >= 1,
                        m >= 0,
                ;
                assert(n > m);
            }
            if buffer.len() > 0 {
                let ghost q0 = segments@.len() as int;
                let ghost b0 = buffer@.len() as int;
                proof {
                    assert(buffer@ == orig.subrange(n - b0, n));
                    assert(n - b0 == q0 * (m + 1));
                }
                Self::sort_and_write_segment(&mut segments, buffer);
                let ghost segs = segments@;
                proof {
                    vstd::arithmetic::div_mod::lemma_fundamental_div_mod_converse(
                        n,
                        m + 1,
                        q0,
                        b0,
                    );
                    assert(seg_msets(segments@) =~= orig.to_multiset());
                    assert(segments@.len() == spill_count(orig.len(), max as nat));
                    assert(segs.last().mset() == orig.subrange(q0 * (m + 1), n).to_multiset());
                }
                let it = SortedIterator::new(None, segments);
                proof {
                    assert forall|i: int| 0 <= i < it.spec_segment_count() implies sorted_le(
                        #[trigger] it.spec_segment_items(i),
                    ) && it.spec_segment_bytes(i) == stream_of(it.spec_segment_items(i))
                        && it.spec_segment_items(i).to_multiset() == run_slice(
                        orig,
                        max as nat,
                        it.spec_segment_count(),
                        i,
                    ).to_multiset() by {
                        assert(segs[i].wf());
                        assert(it.spec_segment_items(i) == segs[i].items@);
                        assert(it.spec_segment_bytes(i) == segs[i].bytes@);
                        if i == it.spec_segment_count() - 1 {
                            assert(segs[i] == segs.last());
                            assert(i * (m + 1) == q0 * (m + 1));
                        }
                    }
                }
                it
            } else {
                let ghost segs = segments@;
                proof {
                    let q0 = segments@.len() as int;
                    vstd::arithmetic::div_mod::lemma_fundamental_div_mod_converse(
                        n,
                        m + 1,
                        q0,
                        0,
                    );
                    assert(buffer@.to_multiset() =~= Multiset::<T>::empty());
                    assert(seg_msets(segments@) =~= orig.to_multiset());
                    assert(segments@.len() == spill_count(orig.len(), max as nat));
                }
                let it = SortedIterator::new(None, segments);
                proof {
                    let count = segs.len() as int;
                    assert forall|i: int| 0 <= i < it.spec_segment_count() implies sorted_le(
                        #[trigger] it.spec_segment_items(i),
                    ) && it.spec_segment_bytes(i) == stream_of(it.spec_segment_items(i))
                        && it.spec_segment_items(i).to_multiset() == run_slice(
                        orig,
                        max as nat,
                        it.spec_segment_count(),
                        i,
                    ).to_multiset() by {
                        assert(segs[i].wf());
                        assert(it.spec_segment_items(i) == segs[i].items@);
                        assert(it.spec_segment_bytes(i) == segs[i].bytes@);
                        if i == count - 1 {
                            assert((i + 1) * (m + 1) == count * (m + 1));
                            assert((i + 1) * (m + 1) == n);
                        }
                    }
                }
                it
            }
        }
    }

    /// Sort the buffered items and append them as one new run; the
    /// new run holds exactly the buffer's items, in sorted order.
    fn sort_and_write_segment<T: Sortable>(segments: &mut Vec<Segment<T>>, buffer: Vec<T>)
        ensures
            final(segments)@.len() == old(segments)@.len() + 1,
            forall|i: int|
                0 <= i < old(segments)@.len() ==> final(segments)@[i] == old(segments)@[i],
            final(segments)@.last().wf(),
            final(segments)@.last().mset() == buffer@.to_multiset(),
            final(segments)@.last().items@.len() == buffer@.len(),
            seg_msets(final(segments)@) == seg_msets(old(segments)@).add(buffer@.to_multiset()),
    {
        let ghost n = buffer@.len() as int;
        let sorted = sort_vec(buffer);
        let mut bytes: Vec<u8> = Vec::new();
        let mut i: usize = 0;
        proof {
            assert(sorted@.take(0) =~= Seq::<T>::empty());
        }
        while i < sorted.len()
            invariant
                i <= sorted@.len(),
                bytes@ == stream_of(sorted@.take(i as int)),
        decreases sorted@.len() - i,
        {
            sorted[i].encode(&mut bytes);
            proof {
                crate::sortable::lemma_stream_of_push(sorted@.take(i as int), sorted@[i as int]);
                assert(sorted@.take(i as int).push(sorted@[i as int]) =~= sorted@.take(
                    i as int + 1,
                ));
            }
            i += 1;
        }
        proof {
            assert(sorted@.take(sorted@.len() as int) =~= sorted@);
        }
        let seg = Segment { bytes, items: Ghost(sorted@) };
        proof {
            lemma_seg_msets_push(segments@, seg);
        }
        segments.push(seg);
        proof {
            assert(segments@.last() == seg);
        }
    }
}

impl Default for ExternalSorter {
    fn default() -> (s: Self)
        ensures
            s.spec_max_size() == 10000usize,
            s.spec_sort_dir() is None,
    {
        ExternalSorter::new()
    }
}

} // verus!
