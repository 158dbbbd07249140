//! A verified merge sort over any [`Sortable`] item type: the result
//! is sorted under the item order and holds exactly the input's
//! multiset of items.

use vstd::prelude::*;
use vstd::multiset::Multiset;
use vstd::seq_lib::lemma_multiset_commutative;

use crate::sortable::{sorted_le, Sortable};

verus! {

/// A sequence sorted the other way round: every later element is
/// `le_spec` every earlier one.
pub open spec fn sorted_desc<T: Sortable>(s: Seq<T>) -> bool {
    forall|i: int, j: int| 0 <= i < j < s.len() ==> #[trigger] s[j].le_spec(#[trigger] s[i])
}

/// A sequence is sorted exactly when its reversal is sorted the other
/// way round.
proof fn lemma_sorted_reverse<T: Sortable>(s: Seq<T>)
    ensures
        sorted_le(s) <==> sorted_desc(s.reverse()),
{
    let r = s.reverse();
    if sorted_le(s) {
        assert forall|i: int, j: int| 0 <= i < j < r.len() implies #[trigger] r[j].le_spec(
            #[trigger] r[i],
        ) by {
            assert(r[j] == s[s.len() - 1 - j]);
            assert(r[i] == s[s.len() - 1 - i]);
        }
    }
    if sorted_desc(r) {
        assert forall|i: int, j: int| 0 <= i < j < s.len() implies #[trigger] s[i].le_spec(
            #[trigger] s[j],
        ) by {
            assert(s[i] == r[s.len() - 1 - i]);
            assert(s[j] == r[s.len() - 1 - j]);
        }
    }
}

/// The input in reverse order.
pub(crate) fn reversed<T>(v: Vec<T>) -> (r: Vec<T>)
    ensures
        r@ == v@.reverse(),
{
    let ghost orig = v@;
    let mut src = v;
    let mut r: Vec<T> = Vec::new();
    proof {
        assert(r@ + src@.reverse() =~= orig.reverse());
    }
    while src.len() > 0
        invariant
            r@ + src@.reverse() == orig.reverse(),
        decreases src@.len(),
    {
        let ghost old_src = src@;
        let ghost old_r = r@;
        let x = src.pop().unwrap();
        r.push(x);
        proof {
            let n = old_src.len() as int;
            assert(src@ =~= old_src.drop_last());
            assert(r@ + src@.reverse() =~= old_r + old_src.reverse()) by {
                assert(src@.reverse().len() == n - 1);
                assert forall|i: int|
                    0 <= i < old_r.len() + n implies (r@ + src@.reverse())[i] == (old_r
                    + old_src.reverse())[i] by {
                    let m = old_r.len() as int;
                    if i < m {
                    } else if i == m {
                        assert((r@ + src@.reverse())[i] == x);
                        assert(old_src.reverse()[0] == old_src[n - 1]);
                    } else {
                        assert((r@ + src@.reverse())[i] == src@.reverse()[i - m - 1]);
                        assert(src@.reverse()[i - m - 1] == src@[n - 1 - (i - m)]);
                        assert(src@[n - 1 - (i - m)] == old_src[n - 1 - (i - m)]);
                        assert(old_src.reverse()[i - m] == old_src[n - 1 - (i - m)]);
                    }
                }
            }
        }
    }
    proof {
        assert(src@.reverse() =~= Seq::<T>::empty());
        assert(r@ =~= r@ + src@.reverse());
    }
    r
}

/// Merge two sorted inputs into one sorted output holding both
/// multisets of items.
fn merge<T: Sortable>(a: Vec<T>, b: Vec<T>) -> (r: Vec<T>)
    requires
        sorted_le(a@),
        sorted_le(b@),
    ensures
        sorted_le(r@),
        r@.to_multiset() == a@.to_multiset().add(b@.to_multiset()),
{
    let ghost ma = a@.to_multiset();
    let ghost mb = b@.to_multiset();
    proof {
        lemma_sorted_reverse(a@);
        lemma_sorted_reverse(b@);
        a@.lemma_reverse_to_multiset();
        b@.lemma_reverse_to_multiset();
    }
    let mut ar = reversed(a);
    let mut br = reversed(b);
    let mut out: Vec<T> = Vec::new();
    proof {
        broadcast use vstd::seq_lib::group_to_multiset_ensures;

        assert(out@.to_multiset() =~= Multiset::empty());
        assert(out@.to_multiset().add(ar@.to_multiset()).add(br@.to_multiset()) =~= ma.add(mb));
    }
    while ar.len() > 0 || br.len() > 0
        invariant
            sorted_desc(ar@),
            sorted_desc(br@),
            sorted_le(out@),
            out@.to_multiset().add(ar@.to_multiset()).add(br@.to_multiset()) == ma.add(mb),
            forall|j: int|
                0 <= j < ar@.len() ==> out@.len() == 0 || out@.last().le_spec(#[trigger] ar@[j]),
            forall|j: int|
                0 <= j < br@.len() ==> out@.len() == 0 || out@.last().le_spec(#[trigger] br@[j]),
        decreases ar@.len() + br@.len(),
    {
        let take_a: bool = if br.len() == 0 {
            true
        } else if ar.len() == 0 {
            false
        } else {
            ar[ar.len() - 1].le(&br[br.len() - 1])
        };
        proof {
            broadcast use vstd::seq_lib::group_to_multiset_ensures;

        }
        if take_a {
            let ghost x = ar@.last();
            proof {
                assert forall|j: int| 0 <= j < ar@.len() - 1 implies x.le_spec(
                    #[trigger] ar@[j],
                ) by {}
                assert forall|j: int| 0 <= j < br@.len() implies x.le_spec(#[trigger] br@[j]) by {
                    if j < br@.len() - 1 {
                        T::lemma_le_transitive(x, br@.last(), br@[j]);
                    }
                }
                assert(ar@.remove(ar@.len() - 1) =~= ar@.drop_last());
            }
            let v = ar.pop().unwrap();
            push_min(&mut out, v, Ghost(ar@), Ghost(br@));
        } else {
            let ghost x = br@.last();
            proof {
                if ar@.len() > 0 {
                    T::lemma_le_total(ar@.last(), br@.last());
                }
                assert forall|j: int| 0 <= j < br@.len() - 1 implies x.le_spec(
                    #[trigger] br@[j],
                ) by {}
                assert forall|j: int| 0 <= j < ar@.len() implies x.le_spec(#[trigger] ar@[j]) by {
                    if j < ar@.len() - 1 {
                        T::lemma_le_transitive(x, ar@.last(), ar@[j]);
                    }
                }
                assert(br@.remove(br@.len() - 1) =~= br@.drop_last());
            }
            let v = br.pop().unwrap();
            push_min(&mut out, v, Ghost(br@), Ghost(ar@));
        }
    }
    proof {
        assert(out@.to_multiset() =~= ma.add(mb)) by {
            assert(ar@.to_multiset().len() == 0 && br@.to_multiset().len() == 0) by {
                broadcast use vstd::seq_lib::group_to_multiset_ensures;

            }
            assert(ar@.to_multiset() =~= Multiset::empty());
            assert(br@.to_multiset() =~= Multiset::empty());
        }
    }
    out
}

/// Append a value that is `le_spec` everything still unmerged onto a
/// sorted output whose last element is `le_spec` the value.
fn push_min<T: Sortable>(out: &mut Vec<T>, v: T, rest1: Ghost<Seq<T>>, rest2: Ghost<Seq<T>>)
    requires
        sorted_le(old(out)@),
        old(out)@.len() > 0 ==> old(out)@.last().le_spec(v),
        forall|j: int| 0 <= j < rest1@.len() ==> v.le_spec(#[trigger] rest1@[j]),
        forall|j: int| 0 <= j < rest2@.len() ==> v.le_spec(#[trigger] rest2@[j]),
    ensures
        final(out)@ == old(out)@.push(v),
        sorted_le(final(out)@),
        forall|j: int|
            0 <= j < rest1@.len() ==> final(out)@.last().le_spec(#[trigger] rest1@[j]),
        forall|j: int|
            0 <= j < rest2@.len() ==> final(out)@.last().le_spec(#[trigger] rest2@[j]),
{
    proof {
        let o = out@.push(v);
        assert forall|i: int, j: int| 0 <= i < j < o.len() implies #[trigger] o[i].le_spec(
            #[trigger] o[j],
        ) by {
            if j == o.len() - 1 && i < out@.len() - 1 {
                T::lemma_le_transitive(out@[i], out@.last(), v);
            }
        }
    }
    out.push(v);
}

/// Two sorted sequences holding the same multiset of items are
/// equal: the sorted output is determined by which items went in,
/// whatever order they arrived in.
pub proof fn lemma_sorted_unique<T: Sortable>(a: Seq<T>, b: Seq<T>)
    requires
        sorted_le(a),
        sorted_le(b),
        a.to_multiset() == b.to_multiset(),
    ensures
        a == b,
    decreases a.len(),
{
    broadcast use vstd::seq_lib::group_to_multiset_ensures;

    if a.len() == 0 {
        assert(b.to_multiset().len() == 0);
        assert(a =~= b);
    } else {
        vstd::seq_lib::to_multiset_len::<T>(a);
        vstd::seq_lib::to_multiset_len::<T>(b);
        assert(b.len() == a.len());
        assert(b.contains(b[0]));
        assert(a.to_multiset().count(b[0]) > 0);
        assert(a.contains(b[0]));
        let j = choose|j: int| 0 <= j < a.len() && a[j] == b[0];
        assert(a.contains(a[0]));
        assert(b.to_multiset().count(a[0]) > 0);
        assert(b.contains(a[0]));
        let k = choose|k: int| 0 <= k < b.len() && b[k] == a[0];
        if j > 0 && k > 0 {
            assert(a[0].le_spec(a[j]));
            assert(b[0].le_spec(b[k]));
            T::lemma_le_antisymmetric(a[0], b[0]);
        }
        assert(a[0] == b[0]);
        let at = a.drop_first();
        let bt = b.drop_first();
        assert(a.remove(0) =~= at);
        assert(b.remove(0) =~= bt);
        assert(at.to_multiset() == a.to_multiset().remove(a[0]));
        assert(bt.to_multiset() == b.to_multiset().remove(b[0]));
        assert(sorted_le(at)) by {
            assert forall|i: int, j2: int|
                0 <= i < j2 < at.len() implies #[trigger] at[i].le_spec(#[trigger] at[j2]) by {
                assert(at[i] == a[i + 1] && at[j2] == a[j2 + 1]);
            }
        }
        assert(sorted_le(bt)) by {
            assert forall|i: int, j2: int|
                0 <= i < j2 < bt.len() implies #[trigger] bt[i].le_spec(#[trigger] bt[j2]) by {
                assert(bt[i] == b[i + 1] && bt[j2] == b[j2 + 1]);
            }
        }
        lemma_sorted_unique(at, bt);
        assert(a =~= b) by {
            assert forall|i: int| 0 <= i < a.len() implies a[i] == b[i] by {
                if i > 0 {
                    assert(a[i] == at[i - 1] && b[i] == bt[i - 1]);
                }
            }
        }
    }
}

/// Sort the input by the item order: the output is sorted and holds
/// exactly the input's multiset of items.
pub fn sort_vec<T: Sortable>(v: Vec<T>) -> (r: Vec<T>)
    ensures
        sorted_le(r@),
        r@.to_multiset() == v@.to_multiset(),
        r@.len() == v@.len(),
    decreases v@.len(),
{
    let ghost orig = v@;
    if v.len() <= 1 {
        v
    } else {
        let mut left = v;
        let mid = left.len() / 2;
        let right = left.split_off(mid);
        proof {
            assert(orig =~= left@ + right@);
            lemma_multiset_commutative(left@, right@);
        }
        let ls = sort_vec(left);
        let rs = sort_vec(right);
        let r = merge(ls, rs);
        proof {
            broadcast use vstd::seq_lib::group_to_multiset_ensures;

            assert(r@.to_multiset() == orig.to_multiset());
            assert(r@.to_multiset().len() == orig.to_multiset().len());
        }
        r
    }
}

} // verus!
