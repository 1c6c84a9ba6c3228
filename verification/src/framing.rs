//! The wire's framing. A frame is a run of bytes ended by one delimiter byte;
//! a frame with no content is discarded. What follows the last delimiter is the
//! residue: the start of a frame that is not complete yet.

use vstd::prelude::*;

verus! {

/// The byte that ends a frame: an ASCII newline. No other delimiter and no
/// escaping is recognised.
pub const DELIMITER: u8 = 0x0A;

/// No byte of `s` is the delimiter.
pub open spec fn delimiter_free(s: Seq<u8>) -> bool {
    forall|i: int| 0 <= i < s.len() ==> s[i] != DELIMITER
}

/// The number of bytes of `s` before its first delimiter; `s.len()` when `s`
/// holds no delimiter.
pub open spec fn delimiter_offset(s: Seq<u8>) -> nat
    decreases s.len(),
{
    if s.len() == 0 || s[0] == DELIMITER {
        0
    } else {
        1 + delimiter_offset(s.skip(1))
    }
}

/// The complete, non-empty frames of `s`, in the order they appear in it.
pub open spec fn frames(s: Seq<u8>) -> Seq<Seq<u8>>
    decreases s.len(),
{
    let p = delimiter_offset(s) as int;
    if p >= s.len() {
        Seq::empty()
    } else if p == 0 {
        frames(s.skip(1))
    } else {
        seq![s.take(p)] + frames(s.skip(p + 1))
    }
}

/// What follows the last delimiter of `s`; all of `s` when it holds none.
pub open spec fn residue(s: Seq<u8>) -> Seq<u8>
    decreases s.len(),
{
    let p = delimiter_offset(s) as int;
    if p >= s.len() {
        s
    } else {
        residue(s.skip(p + 1))
    }
}

/// One extraction from the accumulated bytes `s`: the first complete
/// non-empty frame together with what follows its delimiter, or, when `s`
/// holds no such frame, nothing together with the residue. Empty frames met
/// on the way are dropped.
pub open spec fn scan(s: Seq<u8>) -> (Option<Seq<u8>>, Seq<u8>)
    decreases s.len(),
{
    let p = delimiter_offset(s) as int;
    if p >= s.len() {
        (None, s)
    } else if p == 0 {
        scan(s.skip(1))
    } else {
        (Some(s.take(p)), s.skip(p + 1))
    }
}

/// The bytes that carry the frames `fs`: each frame followed by a delimiter.
pub open spec fn wire(fs: Seq<Seq<u8>>) -> Seq<u8>
    decreases fs.len(),
{
    if fs.len() == 0 {
        Seq::empty()
    } else {
        fs[0] + seq![DELIMITER] + wire(fs.skip(1))
    }
}

/// Every frame of `fs` has content and holds no delimiter.
pub open spec fn framable(fs: Seq<Seq<u8>>) -> bool {
    forall|i: int| 0 <= i < fs.len() ==> (#[trigger] fs[i]).len() > 0 && delimiter_free(fs[i])
}

/// `delimiter_offset` finds the first delimiter: it lies within `s`, no byte
/// before it is a delimiter, and the byte at it is one unless `s` has none.
pub proof fn lemma_delimiter_offset(s: Seq<u8>)
    ensures
        delimiter_offset(s) <= s.len(),
        delimiter_free(s.take(delimiter_offset(s) as int)),
        delimiter_offset(s) < s.len() ==> s[delimiter_offset(s) as int] == DELIMITER,
        delimiter_offset(s) == s.len() <==> delimiter_free(s),
    decreases s.len(),
{
    if s.len() == 0 || s[0] == DELIMITER {
    } else {
        let t = s.skip(1);
        lemma_delimiter_offset(t);
        let p = delimiter_offset(s) as int;
        assert forall|i: int| 0 <= i < p implies s.take(p)[i] != DELIMITER by {
            if i > 0 {
                assert(s.take(p)[i] == t.take(p - 1)[i - 1]);
            }
        }
        if delimiter_free(s) {
            assert forall|i: int| 0 <= i < t.len() implies t[i] != DELIMITER by {
                assert(t[i] == s[i + 1]);
            }
        }
        if delimiter_offset(t) == t.len() {
            assert forall|i: int| 0 <= i < s.len() implies s[i] != DELIMITER by {
                if i > 0 {
                    assert(s[i] == t[i - 1]);
                }
            }
        }
    }
}

/// A position with a delimiter at it and none before it is the one that
/// `delimiter_offset` gives.
pub proof fn lemma_delimiter_offset_unique(s: Seq<u8>, p: int)
    requires
        0 <= p <= s.len(),
        forall|i: int| 0 <= i < p ==> s[i] != DELIMITER,
        p < s.len() ==> s[p] == DELIMITER,
    ensures
        delimiter_offset(s) == p,
{
    lemma_delimiter_offset(s);
    let q = delimiter_offset(s) as int;
    if q < p {
        assert(s[q] == DELIMITER);
    } else if p < q {
        assert(s.take(q)[p] == s[p]);
    }
}

/// A stream without a delimiter holds no complete frame: all of it is
/// residue.
pub proof fn lemma_delimiter_free(s: Seq<u8>)
    requires
        delimiter_free(s),
    ensures
        frames(s) == Seq::<Seq<u8>>::empty(),
        residue(s) == s,
        scan(s) == (None::<Seq<u8>>, s),
{
    lemma_delimiter_offset(s);
}

/// What `scan` hands out is the first of the frames, and what it leaves
/// holds the frames after it and the same residue. When it hands out
/// nothing there is no frame, and what it leaves is the residue.
pub proof fn lemma_scan(s: Seq<u8>)
    ensures
        match scan(s) {
            (Some(frame), rest) => frames(s) == seq![frame] + frames(rest) && residue(s)
                == residue(rest) && frame.len() > 0 && delimiter_free(frame),
            (None, rest) => frames(s) == Seq::<Seq<u8>>::empty() && rest == residue(s)
                && delimiter_free(rest),
        },
    decreases s.len(),
{
    lemma_delimiter_offset(s);
    let p = delimiter_offset(s) as int;
    if p >= s.len() {
    } else if p == 0 {
        lemma_scan(s.skip(1));
    } else {
    }
}

/// Chunking does not matter. The frames of two chunks put together are the
/// frames of the first, then the frames of what the first left over followed
/// by the second; and the residue is that of the left-over followed by the
/// second.
pub proof fn lemma_frames_append(a: Seq<u8>, b: Seq<u8>)
    ensures
        frames(a + b) == frames(a) + frames(residue(a) + b),
        residue(a + b) == residue(residue(a) + b),
    decreases a.len(),
{
    lemma_delimiter_offset(a);
    let p = delimiter_offset(a) as int;
    if p >= a.len() {
        assert(frames(a) + frames(a + b) =~= frames(a + b));
    } else {
        assert forall|i: int| 0 <= i < p implies (a + b)[i] != DELIMITER by {
            assert(a.take(p)[i] == a[i]);
        }
        lemma_delimiter_offset_unique(a + b, p);
        let rest = a.skip(p + 1);
        assert((a + b).skip(p + 1) =~= rest + b);
        assert((a + b).take(p) =~= a.take(p));
        lemma_frames_append(rest, b);
        if p == 0 {
        } else {
            assert(seq![a.take(p)] + (frames(rest) + frames(residue(rest) + b)) =~= (seq![
                a.take(p),
            ] + frames(rest)) + frames(residue(rest) + b));
        }
    }
}

/// The frames of a stream are well formed: each has content and holds no
/// delimiter. Its residue holds no delimiter.
pub proof fn lemma_frames_framable(s: Seq<u8>)
    ensures
        framable(frames(s)),
        delimiter_free(residue(s)),
    decreases s.len(),
{
    lemma_delimiter_offset(s);
    let p = delimiter_offset(s) as int;
    if p >= s.len() {
    } else if p == 0 {
        lemma_frames_framable(s.skip(1));
    } else {
        let rest = s.skip(p + 1);
        lemma_frames_framable(rest);
        assert forall|i: int| 0 <= i < frames(s).len() implies (#[trigger] frames(s)[i]).len() > 0
            && delimiter_free(frames(s)[i]) by {
            if i > 0 {
                assert(frames(s)[i] == frames(rest)[i - 1]);
            }
        }
    }
}

/// Framing undoes `wire`: the frames of the bytes that carry well-formed
/// frames are those frames, in their order, and nothing is left over.
pub proof fn lemma_frames_of_wire(fs: Seq<Seq<u8>>)
    requires
        framable(fs),
    ensures
        frames(wire(fs)) == fs,
        residue(wire(fs)) == Seq::<u8>::empty(),
    decreases fs.len(),
{
    if fs.len() == 0 {
        assert(frames(wire(fs)) =~= fs);
    } else {
        let first = fs[0];
        let rest = fs.skip(1);
        let w = wire(fs);
        let p = first.len() as int;
        assert forall|i: int| 0 <= i < rest.len() implies (#[trigger] rest[i]).len() > 0
            && delimiter_free(rest[i]) by {
            assert(rest[i] == fs[i + 1]);
        }
        lemma_frames_of_wire(rest);
        lemma_delimiter_offset_unique(w, p);
        assert(w.take(p) =~= first);
        assert(w.skip(p + 1) =~= wire(rest));
        assert(seq![first] + rest =~= fs);
    }
}

/// A delimiter at the very start of a stream yields no frame and leaves the
/// rest of the stream as it would be without it.
pub proof fn lemma_leading_delimiter(s: Seq<u8>)
    ensures
        frames(seq![DELIMITER] + s) == frames(s),
        residue(seq![DELIMITER] + s) == residue(s),
{
    let t = seq![DELIMITER] + s;
    assert(t.skip(1) =~= s);
}

/// A delimiter that follows another directly yields no frame: the stream
/// frames as it would with one delimiter in their place.
pub proof fn lemma_consecutive_delimiters(a: Seq<u8>, b: Seq<u8>)
    ensures
        frames(a + seq![DELIMITER, DELIMITER] + b) == frames(a + seq![DELIMITER] + b),
        residue(a + seq![DELIMITER, DELIMITER] + b) == residue(a + seq![DELIMITER] + b),
{
    let one = a + seq![DELIMITER];
    lemma_ends_with_delimiter(a);
    lemma_frames_append(one, seq![DELIMITER] + b);
    lemma_frames_append(one, b);
    lemma_leading_delimiter(b);
    assert(one + (seq![DELIMITER] + b) =~= a + seq![DELIMITER, DELIMITER] + b);
    assert(Seq::<u8>::empty() + (seq![DELIMITER] + b) =~= seq![DELIMITER] + b);
    assert(Seq::<u8>::empty() + b =~= b);
}

/// A stream that ends with a delimiter leaves nothing over.
pub proof fn lemma_ends_with_delimiter(a: Seq<u8>)
    ensures
        residue(a + seq![DELIMITER]) == Seq::<u8>::empty(),
{
    lemma_frames_append(a, seq![DELIMITER]);
    lemma_frames_framable(a);
    let r = residue(a);
    let t = r + seq![DELIMITER];
    lemma_delimiter_offset_unique(t, r.len() as int);
    assert(t.skip(r.len() as int + 1) =~= Seq::<u8>::empty());
    assert(residue(Seq::<u8>::empty()) == Seq::<u8>::empty());
    assert(residue(t) == residue(t.skip(r.len() as int + 1)));
}

} // verus!
