//! The mathematics of cutting a byte stream into fixed-size frames.

use vstd::prelude::*;

verus! {

/// The frames cut from the front of `s`: every full `size` bytes, in order.
pub open spec fn chunks(s: Seq<u8>, size: nat) -> Seq<Seq<u8>>
    decreases s.len(),
{
    if size == 0 || s.len() < size {
        Seq::empty()
    } else {
        seq![s.take(size as int)] + chunks(s.skip(size as int), size)
    }
}

/// What is left of `s` once every full frame has been cut off.
pub open spec fn remainder(s: Seq<u8>, size: nat) -> Seq<u8>
    decreases s.len(),
{
    if size == 0 || s.len() < size {
        s
    } else {
        remainder(s.skip(size as int), size)
    }
}

/// Every frame is exactly `size` bytes long, the frames followed by the
/// remainder give back the stream, and the remainder is shorter than a frame.
pub proof fn lemma_chunks_cover(s: Seq<u8>, size: nat)
    requires
        size > 0,
    ensures
        forall|i: int| 0 <= i < chunks(s, size).len() ==> (#[trigger] chunks(s, size)[i]).len() == size,
        chunks(s, size).flatten() + remainder(s, size) == s,
        remainder(s, size).len() < size,
        chunks(s, size).len() * size + remainder(s, size).len() == s.len(),
    decreases s.len(),
{
    if s.len() >= size {
        let rest = s.skip(size as int);
        lemma_chunks_cover(rest, size);
        let head = s.take(size as int);
        let cs = chunks(s, size);
        assert(cs == seq![head] + chunks(rest, size));
        assert forall|i: int| 0 <= i < cs.len() implies (#[trigger] cs[i]).len() == size by {
            if i > 0 {
                assert(cs[i] == chunks(rest, size)[i - 1]);
            }
        }
        assert((seq![head] + chunks(rest, size)).flatten() == head + chunks(rest, size).flatten()) by {
            lemma_flatten_prepend(head, chunks(rest, size));
        }
        assert(s == head + rest);
        assert(cs.len() * size == size + chunks(rest, size).len() * size) by (nonlinear_arith)
            requires
                cs.len() == chunks(rest, size).len() + 1,
        ;
    }
}

proof fn lemma_flatten_prepend(head: Seq<u8>, tail: Seq<Seq<u8>>)
    ensures
        (seq![head] + tail).flatten() == head + tail.flatten(),
{
    let whole = seq![head] + tail;
    assert(whole.first() == head);
    assert(whole.drop_first() == tail);
}

/// Cutting is independent of how the stream arrives: frames cut from a first
/// part, followed by the frames cut from its remainder joined with the next
/// part, are exactly the frames of the two parts joined, and the same bytes
/// are left over.
pub proof fn lemma_chunks_split(a: Seq<u8>, b: Seq<u8>, size: nat)
    requires
        size > 0,
    ensures
        chunks(a, size) + chunks(remainder(a, size) + b, size) == chunks(a + b, size),
        remainder(remainder(a, size) + b, size) == remainder(a + b, size),
    decreases a.len(),
{
    if a.len() >= size {
        let rest = a.skip(size as int);
        lemma_chunks_split(rest, b, size);
        assert((a + b).take(size as int) == a.take(size as int));
        assert((a + b).skip(size as int) == rest + b);
        assert(chunks(a, size) == seq![a.take(size as int)] + chunks(rest, size));
        assert(seq![a.take(size as int)] + chunks(rest, size) + chunks(remainder(rest, size) + b, size)
            == seq![a.take(size as int)] + (chunks(rest, size) + chunks(remainder(rest, size) + b, size)));
    } else {
        assert(chunks(a, size) + chunks(a + b, size) == chunks(a + b, size));
    }
}

/// A stream whose length is a whole number of frames gives exactly
/// `len / size` frames and leaves nothing over.
pub proof fn lemma_chunks_exact_multiple(s: Seq<u8>, size: nat)
    requires
        size > 0,
        s.len() % size == 0,
    ensures
        chunks(s, size).len() == s.len() / size,
        remainder(s, size).len() == 0,
{
    lemma_chunks_cover(s, size);
    let q = chunks(s, size).len() as int;
    let r = remainder(s, size).len() as int;
    vstd::arithmetic::div_mod::lemma_fundamental_div_mod_converse(s.len() as int, size as int, q, r);
}

} // verus!
