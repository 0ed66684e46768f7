//! Sources of input bytes for the lazy encoders and decoders.

use vstd::prelude::*;

use crate::model::zero_free;

verus! {

/// A forward-only source of bytes, pulled one at a time; `None` marks its end.
pub trait ByteSource {
    /// Everything the source has given so far, in order.
    spec fn given(&self) -> Seq<Option<u8>>;

    /// The source is in a state from which it can be pulled.
    spec fn ready(&self) -> bool;

    /// Pulls the next byte.
    fn next_byte(&mut self) -> (r: Option<u8>)
        requires
            old(self).ready(),
        ensures
            final(self).ready(),
            final(self).given() == old(self).given().push(r),
    ;
}

/// What a source gives for the bytes `bytes`, followed by its end if `ended`.
pub open spec fn given_bytes(bytes: Seq<u8>, ended: bool) -> Seq<Option<u8>> {
    bytes.map_values(|b: u8| Some(b)) + if ended {
        seq![None]
    } else {
        seq![]
    }
}

/// The non-zero bytes among what a source gave.
pub open spec fn nonzero_bytes(g: Seq<Option<u8>>) -> Seq<u8>
    decreases g.len(),
{
    if g.len() == 0 {
        seq![]
    } else {
        match g.last() {
            Some(b) => if b != 0 {
                nonzero_bytes(g.drop_last()).push(b)
            } else {
                nonzero_bytes(g.drop_last())
            },
            None => nonzero_bytes(g.drop_last()),
        }
    }
}

/// The non-zero bytes among what a source gave that gave the zero-free bytes `bytes`, and only
/// ends after them, are those bytes.
pub proof fn lemma_nonzero_bytes_given(bytes: Seq<u8>, g: Seq<Option<u8>>)
    requires
        zero_free(bytes),
        g.len() >= bytes.len(),
        g.subrange(0, bytes.len() as int) == given_bytes(bytes, false),
        forall|i: int| bytes.len() <= i < g.len() ==> #[trigger] g[i] is None,
    ensures
        nonzero_bytes(g) == bytes,
    decreases g.len(),
{
    if g.len() > bytes.len() {
        let h = g.drop_last();
        assert(h.subrange(0, bytes.len() as int) =~= g.subrange(0, bytes.len() as int));
        assert forall|i: int| bytes.len() <= i < h.len() implies #[trigger] h[i] is None by {
            assert(h[i] == g[i]);
        }
        assert(g[g.len() - 1] is None);
        lemma_nonzero_bytes_given(bytes, h);
    } else if bytes.len() > 0 {
        let b = bytes.drop_last();
        let h = g.drop_last();
        assert(given_bytes(bytes, false)[bytes.len() - 1] == Some(bytes[bytes.len() - 1]));
        assert(g[g.len() - 1] == g.subrange(0, bytes.len() as int)[bytes.len() - 1]);
        assert(h.subrange(0, b.len() as int) =~= given_bytes(b, false)) by {
            assert forall|i: int| 0 <= i < b.len() implies h.subrange(0, b.len() as int)[i]
                == given_bytes(b, false)[i] by {
                assert(g.subrange(0, bytes.len() as int)[i] == g[i]);
                assert(given_bytes(bytes, false)[i] == Some(bytes[i]));
            }
        }
        assert(zero_free(b)) by {
            assert forall|i: int| 0 <= i < b.len() implies #[trigger] b[i] != 0 by {
                assert(b[i] == bytes[i]);
            }
        }
        lemma_nonzero_bytes_given(b, h);
        assert(bytes[bytes.len() - 1] != 0);
        assert(b.push(bytes[bytes.len() - 1]) =~= bytes);
    } else {
        assert(g.len() == 0);
    }
}

/// A byte source over an iterator of bytes.
pub struct ByteIter<I> {
    iter: I,
    history: Ghost<Seq<Option<u8>>>,
}

impl<I: Iterator<Item = u8>> ByteIter<I> {
    /// A source of the bytes that `iter` yields.
    pub fn new(iter: I) -> (r: Self)
        ensures
            r.given() == Seq::<Option<u8>>::empty(),
            r.ready(),
    {
        ByteIter { iter, history: Ghost(Seq::empty()) }
    }
}

impl<I: Iterator<Item = u8>> ByteSource for ByteIter<I> {
    closed spec fn given(&self) -> Seq<Option<u8>> {
        self.history@
    }

    closed spec fn ready(&self) -> bool {
        true
    }

    fn next_byte(&mut self) -> (r: Option<u8>) {
        let r = self.iter.next();
        self.history = Ghost(self.history@.push(r));
        r
    }
}

/// A byte source over an iterator of references to bytes.
pub struct ByteRefIter<I> {
    iter: I,
    history: Ghost<Seq<Option<u8>>>,
}

impl<'a, I: Iterator<Item = &'a u8>> ByteRefIter<I> {
    /// A source of the bytes that `iter` refers to.
    pub fn new(iter: I) -> (r: Self)
        ensures
            r.given() == Seq::<Option<u8>>::empty(),
            r.ready(),
    {
        ByteRefIter { iter, history: Ghost(Seq::empty()) }
    }
}

impl<'a, I: Iterator<Item = &'a u8>> ByteSource for ByteRefIter<I> {
    closed spec fn given(&self) -> Seq<Option<u8>> {
        self.history@
    }

    closed spec fn ready(&self) -> bool {
        true
    }

    fn next_byte(&mut self) -> (r: Option<u8>) {
        let r = match self.iter.next() {
            Some(b) => Some(*b),
            None => None,
        };
        self.history = Ghost(self.history@.push(r));
        r
    }
}

} // verus!
