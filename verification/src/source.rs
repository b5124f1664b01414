//! The byte source: a forward-only cursor over buffered input.

use vstd::prelude::*;
use vstd::slice::slice_subrange;
use crate::error::DecodeError;

verus! {

/// What a [`ByteSource`] stands for: the bytes it has yet to hand out, and
/// how many it has handed out before them.
pub struct SourceView {
    /// Number of bytes consumed so far: the offset of `unread[0]` in the input.
    pub consumed: nat,
    /// The buffered bytes that have not been consumed, in input order.
    pub unread: Seq<u8>,
}

impl SourceView {
    /// The view after `n` more bytes were consumed.
    pub open spec fn advance(self, n: nat) -> SourceView {
        SourceView { consumed: self.consumed + n, unread: self.unread.skip(n as int) }
    }

    /// The view with `more` behind what is unread.
    pub open spec fn extended(self, more: Seq<u8>) -> SourceView {
        SourceView { consumed: self.consumed, unread: self.unread + more }
    }

    /// The view after everything buffered was consumed.
    pub open spec fn drained(self) -> SourceView {
        self.advance(self.unread.len())
    }

    /// Offset of the first byte after the buffered input.
    pub open spec fn end(self) -> nat {
        self.consumed + self.unread.len()
    }

    /// `self` is what is left of `earlier` once some of its unread bytes
    /// were consumed.
    pub open spec fn follows(self, earlier: SourceView) -> bool {
        &&& earlier.consumed <= self.consumed <= earlier.end()
        &&& self.unread == earlier.unread.skip(self.consumed - earlier.consumed)
    }

    /// Every offset up to the end of the buffered input fits a `u64`.
    pub open spec fn in_range(self) -> bool {
        self.end() <= u64::MAX
    }
}

/// What one decoding step makes of a source: what it returns, and the view
/// of the source when it returns.
pub struct Step<T> {
    pub result: Result<T, DecodeError>,
    pub after: SourceView,
}

/// What `outcome` stands for: the same failure, or the view of what it holds.
pub open spec fn viewed<T: View>(outcome: Result<T, DecodeError>) -> Result<T::V, DecodeError> {
    match outcome {
        Ok(value) => Ok(value@),
        Err(e) => Err(e),
    }
}

/// A forward-only cursor over the bytes of a document.
///
/// The source buffers what it is fed and hands it out once, in order. A
/// caller that reads a document piece by piece feeds each piece in turn;
/// bytes that were consumed are dropped from the buffer at the next feed.
pub struct ByteSource {
    buf: Vec<u8>,
    pos: usize,
    base: u64,
}

impl View for ByteSource {
    type V = SourceView;

    closed spec fn view(&self) -> SourceView {
        SourceView {
            consumed: (self.base + self.pos) as nat,
            unread: self.buf@.skip(self.pos as int),
        }
    }
}

impl ByteSource {
    #[verifier::type_invariant]
    spec fn well_formed(self) -> bool {
        &&& self.pos <= self.buf.len()
        &&& self.base + self.buf.len() <= u64::MAX
    }

    /// An empty source, positioned at offset 0.
    pub fn new() -> (source: ByteSource)
        ensures
            source@ == (SourceView { consumed: 0, unread: Seq::empty() }),
    {
        let buf: Vec<u8> = Vec::new();
        assert(buf@.skip(0) =~= Seq::<u8>::empty());
        ByteSource { buf, pos: 0, base: 0 }
    }

    /// A source over `bytes`, positioned at offset 0.
    pub fn from_vec(bytes: Vec<u8>) -> (source: ByteSource)
        ensures
            source@ == (SourceView { consumed: 0, unread: bytes@ }),
    {
        assert(bytes@.skip(0) =~= bytes@);
        ByteSource { buf: bytes, pos: 0, base: 0 }
    }

    /// Number of buffered bytes not yet consumed.
    pub fn available(&self) -> (n: usize)
        ensures
            n == self@.unread.len(),
            self@.in_range(),
    {
        proof {
            use_type_invariant(self);
        }
        self.buf.len() - self.pos
    }

    /// Offset of the next unread byte.
    pub fn position(&self) -> (at: u64)
        ensures
            at == self@.consumed,
            self@.in_range(),
    {
        proof {
            use_type_invariant(self);
        }
        self.base + self.pos as u64
    }

    /// The next unread byte, which stays unread.
    pub fn peek(&self) -> (next: Result<u8, DecodeError>)
        ensures
            next == peeked(self@),
    {
        proof {
            use_type_invariant(self);
        }
        if self.pos < self.buf.len() {
            Ok(self.buf[self.pos])
        } else {
            Err(DecodeError::IOError { position: self.base + self.pos as u64 })
        }
    }

    /// The buffered bytes that have not been consumed.
    pub fn unread(&self) -> (window: &[u8])
        ensures
            window@ == self@.unread,
            self@.in_range(),
    {
        proof {
            use_type_invariant(self);
        }
        slice_subrange(self.buf.as_slice(), self.pos, self.buf.len())
    }

    /// Appends `chunk` to the buffered input, unless the input would then
    /// extend past the largest offset that a `u64` can hold; in that case
    /// the source stays as it is and the result is `false`.
    pub fn feed(&mut self, chunk: &[u8]) -> (accepted: bool)
        ensures
            accepted == (old(self)@.end() + chunk@.len() <= u64::MAX),
            accepted ==> final(self)@ == old(self)@.extended(chunk@),
            !accepted ==> final(self)@ == old(self)@,
    {
        proof {
            use_type_invariant(&*self);
        }
        let end: u64 = self.base + self.buf.len() as u64;
        if chunk.len() as u64 > u64::MAX - end {
            return false;
        }
        let mut fresh: Vec<u8> = Vec::new();
        let mut i: usize = self.pos;
        while i < self.buf.len()
            invariant
                self.pos <= i <= self.buf.len(),
                fresh@ == self.buf@.subrange(self.pos as int, i as int),
            decreases self.buf.len() - i,
        {
            fresh.push(self.buf[i]);
            i = i + 1;
        }
        let ghost kept = fresh@;
        let mut j: usize = 0;
        while j < chunk.len()
            invariant
                j <= chunk@.len(),
                fresh@ == kept + chunk@.take(j as int),
            decreases chunk.len() - j,
        {
            fresh.push(chunk[j]);
            j = j + 1;
        }
        let base: u64 = self.base + self.pos as u64;
        proof {
            assert(chunk@.take(chunk@.len() as int) =~= chunk@);
            assert(fresh@.skip(0) =~= fresh@);
        }
        *self = ByteSource { buf: fresh, pos: 0, base };
        true
    }

    /// Consumes one byte and returns it.
    pub fn next_byte(&mut self) -> (next: Result<u8, DecodeError>)
        ensures
            next == byte_step(old(self)@).result,
            final(self)@ == byte_step(old(self)@).after,
    {
        proof {
            use_type_invariant(&*self);
        }
        if self.pos < self.buf.len() {
            let b = self.buf[self.pos];
            proof {
                assert(self.buf@.skip(self.pos + 1) =~= self.buf@.skip(self.pos as int).skip(1));
            }
            self.pos = self.pos + 1;
            Ok(b)
        } else {
            Err(DecodeError::IOError { position: self.base + self.pos as u64 })
        }
    }

    /// Consumes everything that is buffered.
    pub(crate) fn drain(&mut self)
        ensures
            final(self)@ == old(self)@.drained(),
    {
        proof {
            use_type_invariant(&*self);
            assert(self.buf@.skip(self.buf.len() as int) =~= self.buf@.skip(self.pos as int).skip(
                self.buf.len() - self.pos,
            ));
        }
        self.pos = self.buf.len();
    }

    /// Consumes `n` bytes.
    pub(crate) fn skip(&mut self, n: usize)
        requires
            n <= old(self)@.unread.len(),
        ensures
            final(self)@ == old(self)@.advance(n as nat),
    {
        proof {
            use_type_invariant(&*self);
            assert(self.buf@.skip(self.pos + n) =~= self.buf@.skip(self.pos as int).skip(n as int));
        }
        self.pos = self.pos + n;
    }
}

/// What [`ByteSource::peek`] returns on a source that stands for `v`.
pub open spec fn peeked(v: SourceView) -> Result<u8, DecodeError> {
    if v.unread.len() == 0 {
        Err(DecodeError::IOError { position: v.consumed as u64 })
    } else {
        Ok(v.unread[0])
    }
}

/// What [`ByteSource::next_byte`] makes of a source that stands for `v`: the
/// first unread byte is consumed; an exhausted source fails.
pub open spec fn byte_step(v: SourceView) -> Step<u8> {
    if v.unread.len() == 0 {
        Step { result: Err(DecodeError::IOError { position: v.end() as u64 }), after: v }
    } else {
        Step { result: Ok(v.unread[0]), after: v.advance(1) }
    }
}

/// Consuming never goes back: what follows a view that follows `a`, follows `a`.
pub proof fn lemma_follows_chain(a: SourceView, b: SourceView, c: SourceView)
    requires
        b.follows(a),
        c.follows(b),
    ensures
        c.follows(a),
{
    assert(a.unread.skip(b.consumed - a.consumed).skip(c.consumed - b.consumed)
        =~= a.unread.skip(c.consumed - a.consumed));
}

/// A view that advanced by no more than it held follows the one it was.
pub proof fn lemma_advance_follows(v: SourceView, n: nat)
    requires
        n <= v.unread.len(),
    ensures
        v.advance(n).follows(v),
        v.advance(n).end() == v.end(),
{
}

/// Advancing twice is advancing once by the sum.
pub proof fn lemma_advance_twice(v: SourceView, a: nat, b: nat)
    requires
        a + b <= v.unread.len(),
    ensures
        v.advance(a).advance(b) == v.advance(a + b),
{
    assert(v.unread.skip(a as int).skip(b as int) =~= v.unread.skip((a + b) as int));
}

/// A view follows itself.
pub proof fn lemma_follows_self(v: SourceView)
    ensures
        v.follows(v),
{
    assert(v.unread.skip(0) =~= v.unread);
}

} // verus!
