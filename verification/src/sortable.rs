//! The item contract: a total order together with a self-delimiting
//! byte encoding, plus the spec-level vocabulary (sorted sequences,
//! byte streams of encoded items) that the engine's contracts use.

use vstd::prelude::*;

verus! {

/// A sequence is sorted: every earlier element is `le_spec` every
/// later one.
pub open spec fn sorted_le<T: Sortable>(s: Seq<T>) -> bool {
    forall|i: int, j: int| 0 <= i < j < s.len() ==> #[trigger] s[i].le_spec(#[trigger] s[j])
}

/// `a` is a prefix of `b`.
pub open spec fn is_prefix(a: Seq<u8>, b: Seq<u8>) -> bool {
    a.len() <= b.len() && a == b.take(a.len() as int)
}

/// The byte stream of a sequence of items: the concatenation of their
/// encodings, in order.
pub open spec fn stream_of<T: Sortable>(items: Seq<T>) -> Seq<u8>
    decreases items.len(),
{
    if items.len() == 0 {
        Seq::empty()
    } else {
        items[0].encoding() + stream_of(items.drop_first())
    }
}

/// An item that the engine can sort and spill: it carries a total
/// order and a self-delimiting byte encoding.
///
/// `encoding` is the item's byte representation; `encode` appends it
/// to a sink and `decode` reads exactly one item back.  Decoding a
/// stream that starts with some item's encoding must yield that item
/// (the encodings are prefix-free), and decoding at end-of-stream
/// yields nothing.
pub trait Sortable: Sized {
    /// The item's total order.
    spec fn le_spec(self, other: Self) -> bool;

    /// The item's byte representation.
    spec fn encoding(self) -> Seq<u8>;

    /// The order is total (hence also reflexive).
    proof fn lemma_le_total(a: Self, b: Self)
        ensures
            a.le_spec(b) || b.le_spec(a),
    ;

    /// The order is transitive.
    proof fn lemma_le_transitive(a: Self, b: Self, c: Self)
        requires
            a.le_spec(b),
            b.le_spec(c),
        ensures
            a.le_spec(c),
    ;

    /// The order is antisymmetric.
    proof fn lemma_le_antisymmetric(a: Self, b: Self)
        requires
            a.le_spec(b),
            b.le_spec(a),
        ensures
            a == b,
    ;

    /// An encoding is never empty.
    proof fn lemma_encoding_nonempty(x: Self)
        ensures
            x.encoding().len() > 0,
    ;

    /// Encodings are prefix-free, so a decoder that has consumed one
    /// whole encoding knows which item it read.
    proof fn lemma_encoding_prefix_free(x: Self, y: Self)
        requires
            is_prefix(x.encoding(), y.encoding()),
        ensures
            x == y,
    ;

    /// Decide the order.
    fn le(&self, other: &Self) -> (r: bool)
        ensures
            r == self.le_spec(*other),
    ;

    /// Append the item's encoding to `out`.
    fn encode(&self, out: &mut Vec<u8>)
        ensures
            final(out)@ == old(out)@ + self.encoding(),
    ;

    /// Read one item from `bytes` starting at `pos`.  On success the
    /// bytes consumed are exactly the returned item's encoding; and
    /// whenever the stream at `pos` starts with some item's encoding,
    /// decoding succeeds.  At end-of-stream (and on a truncated tail
    /// that no encoding begins) the result is `None`.
    fn decode(bytes: &[u8], pos: usize) -> (r: Option<(Self, usize)>)
        requires
            pos <= bytes@.len(),
        ensures
            r matches Some(p) ==> pos < p.1 <= bytes@.len() && bytes@.subrange(
                pos as int,
                p.1 as int,
            ) == p.0.encoding(),
            forall|x: Self|
                is_prefix(#[trigger] x.encoding(), bytes@.skip(pos as int)) ==> r is Some,
    ;
}

/// Appending an item extends the stream by that item's encoding.
pub proof fn lemma_stream_of_push<T: Sortable>(items: Seq<T>, x: T)
    ensures
        stream_of(items.push(x)) == stream_of(items) + x.encoding(),
    decreases items.len(),
{
    let p = items.push(x);
    if items.len() == 0 {
        assert(p.drop_first() =~= Seq::<T>::empty());
        assert(p[0] == x);
        assert(stream_of(p) == x.encoding() + stream_of(Seq::<T>::empty()));
        assert(stream_of(Seq::<T>::empty()) == Seq::<u8>::empty());
        assert(stream_of(p) =~= stream_of(items) + x.encoding());
    } else {
        assert(p.drop_first() =~= items.drop_first().push(x));
        lemma_stream_of_push(items.drop_first(), x);
        assert(p[0] == items[0]);
        assert(stream_of(p) == items[0].encoding() + (stream_of(items.drop_first())
            + x.encoding()));
        assert(stream_of(items) == items[0].encoding() + stream_of(items.drop_first()));
        assert(stream_of(p) =~= stream_of(items) + x.encoding());
    }
}

/// Of two prefixes of one sequence, the shorter is a prefix of the
/// longer.
pub proof fn lemma_prefix_of_prefix(a: Seq<u8>, b: Seq<u8>, s: Seq<u8>)
    requires
        is_prefix(a, s),
        is_prefix(b, s),
        a.len() <= b.len(),
    ensures
        is_prefix(a, b),
{
    assert(a =~= b.take(a.len() as int)) by {
        assert forall|i: int| 0 <= i < a.len() implies a[i] == b[i] by {
            assert(a[i] == s.take(a.len() as int)[i]);
            assert(b[i] == s.take(b.len() as int)[i]);
        }
    }
}

/// A decoder that consumed one whole encoding from the front of a
/// stream of items read the stream's first item.
pub proof fn lemma_decoded_first<T: Sortable>(items: Seq<T>, y: T)
    requires
        items.len() > 0,
        is_prefix(y.encoding(), stream_of(items)),
    ensures
        y == items[0],
{
    let s = stream_of(items);
    let e = items[0].encoding();
    assert(s == e + stream_of(items.drop_first()));
    assert(is_prefix(e, s)) by {
        assert(e =~= s.take(e.len() as int));
    }
    if e.len() <= y.encoding().len() {
        lemma_prefix_of_prefix(e, y.encoding(), s);
        T::lemma_encoding_prefix_free(items[0], y);
    } else {
        lemma_prefix_of_prefix(y.encoding(), e, s);
        T::lemma_encoding_prefix_free(y, items[0]);
    }
}

impl Sortable for u32 {
    open spec fn le_spec(self, other: Self) -> bool {
        self <= other
    }

    /// Four bytes, little-endian.
    open spec fn encoding(self) -> Seq<u8> {
        seq![
            (self & 0xff) as u8,
            ((self >> 8) & 0xff) as u8,
            ((self >> 16) & 0xff) as u8,
            ((self >> 24) & 0xff) as u8,
        ]
    }

    proof fn lemma_le_total(a: Self, b: Self) {
    }

    proof fn lemma_le_transitive(a: Self, b: Self, c: Self) {
    }

    proof fn lemma_le_antisymmetric(a: Self, b: Self) {
    }

    proof fn lemma_encoding_nonempty(x: Self) {
    }

    proof fn lemma_encoding_prefix_free(x: Self, y: Self) {
        let ex = x.encoding();
        let ey = y.encoding();
        assert(ex[0] == ey[0] && ex[1] == ey[1] && ex[2] == ey[2] && ex[3] == ey[3]) by {
            assert(forall|i: int| 0 <= i < 4 ==> ex[i] == #[trigger] ey.take(4)[i]);
        }
        assert(x == y) by (bit_vector)
            requires
                (x & 0xff) as u8 == (y & 0xff) as u8,
                ((x >> 8) & 0xff) as u8 == ((y >> 8) & 0xff) as u8,
                ((x >> 16) & 0xff) as u8 == ((y >> 16) & 0xff) as u8,
                ((x >> 24) & 0xff) as u8 == ((y >> 24) & 0xff) as u8,
        ;
    }

    fn le(&self, other: &Self) -> (r: bool) {
        *self <= *other
    }

    fn encode(&self, out: &mut Vec<u8>) {
        let x = *self;
        proof {
            assert(x & 0xff < 256 && (x >> 8) & 0xff < 256 && (x >> 16) & 0xff < 256 && (x >> 24)
                & 0xff < 256) by (bit_vector);
        }
        out.push((x & 0xff) as u8);
        out.push(((x >> 8) & 0xff) as u8);
        out.push(((x >> 16) & 0xff) as u8);
        out.push(((x >> 24) & 0xff) as u8);
        proof {
            assert(out@ =~= old(out)@ + self.encoding());
        }
    }

    fn decode(bytes: &[u8], pos: usize) -> (r: Option<(Self, usize)>) {
        if bytes.len() - pos >= 4 {
            let b0 = bytes[pos];
            let b1 = bytes[pos + 1];
            let b2 = bytes[pos + 2];
            let b3 = bytes[pos + 3];
            let v: u32 = (b0 as u32) | ((b1 as u32) << 8) | ((b2 as u32) << 16) | ((b3 as u32)
                << 24);
            proof {
                assert((v & 0xff) as u8 == b0 && ((v >> 8) & 0xff) as u8 == b1 && ((v >> 16)
                    & 0xff) as u8 == b2 && ((v >> 24) & 0xff) as u8 == b3) by (bit_vector)
                    requires
                        v == (b0 as u32) | ((b1 as u32) << 8) | ((b2 as u32) << 16) | ((b3 as u32)
                            << 24),
                ;
                assert(bytes@.subrange(pos as int, pos + 4) =~= v.encoding());
            }
            Some((v, pos + 4))
        } else {
            proof {
                assert forall|x: u32|
                    is_prefix(#[trigger] x.encoding(), bytes@.skip(pos as int)) implies false by {
                    assert(x.encoding().len() == 4);
                    assert(bytes@.skip(pos as int).len() < 4);
                }
            }
            None
        }
    }
}

/// Decoding the encoding of an item from a fresh source yields the
/// item back, having consumed the whole source.
pub fn encode_then_decode<T: Sortable>(x: &T) -> (r: Option<(T, usize)>)
    ensures
        r matches Some(p) ==> p.0 == *x && p.1 == x.encoding().len(),
        r is Some,
{
    let mut buf: Vec<u8> = Vec::new();
    x.encode(&mut buf);
    proof {
        assert(buf@ =~= x.encoding());
        assert(is_prefix(x.encoding(), buf@.skip(0))) by {
            assert(buf@.skip(0) =~= buf@);
            assert(x.encoding() =~= buf@.take(x.encoding().len() as int));
        }
    }
    let r = T::decode(buf.as_slice(), 0);
    proof {
        let p = r->Some_0;
        let single = seq![*x];
        assert(stream_of(single) == single[0].encoding() + stream_of(single.drop_first()));
        assert(stream_of(single) =~= x.encoding());
        assert(buf@.subrange(0, p.1 as int) == p.0.encoding());
        assert(is_prefix(p.0.encoding(), stream_of(single))) by {
            assert(p.0.encoding() =~= stream_of(single).take(p.0.encoding().len() as int));
        }
        lemma_decoded_first(single, p.0);
    }
    r
}

} // verus!
