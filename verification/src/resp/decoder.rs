//! A buffer between a byte stream and frames: feed it whatever arrived, pull
//! whole frames out, and it keeps only the bytes not yet consumed (plus fewer
//! than `COMPACT_AT` consumed ones).
use vstd::prelude::*;
use vstd::slice::*;
use crate::resp::error::Error;
use crate::resp::frame::Frame;
use crate::resp::parser::{Parsed, lemma_parse_length, parse, parse_frame, parse_outcome};

verus! {

/// Consumed bytes are dropped from the buffer once this many have built up.
pub const COMPACT_AT: usize = 4096;

/// Buffers stream bytes and hands out whole frames.
pub struct Decoder {
    buf: Vec<u8>,
    cursor: usize,
}

impl Decoder {
    #[verifier::type_invariant]
    spec fn inv(self) -> bool {
        &&& self.cursor <= self.buf@.len()
        &&& self.cursor < COMPACT_AT
    }

    /// The bytes fed but not yet taken by a frame.
    pub closed spec fn pending(self) -> Seq<u8> {
        self.buf@.skip(self.cursor as int)
    }

    /// How many bytes the buffer holds, consumed ones included.
    pub closed spec fn held(self) -> nat {
        self.buf@.len()
    }

    /// A decoder with nothing buffered.
    pub fn new() -> (d: Self)
        ensures
            d.pending() == Seq::<u8>::empty(),
            d.held() == 0,
    {
        let d = Decoder { buf: Vec::new(), cursor: 0 };
        assert(d.pending() =~= Seq::<u8>::empty());
        d
    }

    /// Appends bytes that arrived.
    pub fn feed(&mut self, bytes: &[u8])
        ensures
            final(self).pending() == old(self).pending() + bytes@,
            final(self).held() == old(self).held() + bytes@.len(),
            final(self).held() < final(self).pending().len() + COMPACT_AT,
    {
        proof {
            use_type_invariant(&*self);
        }
        let mut taken = Decoder::new();
        std::mem::swap(self, &mut taken);
        let Decoder { mut buf, cursor } = taken;
        let mut i: usize = 0;
        while i < bytes.len()
            invariant
                i <= bytes@.len(),
                buf@ == old(self).buf@ + bytes@.take(i as int),
            decreases bytes@.len() - i,
        {
            buf.push(bytes[i]);
            i += 1;
            assert(buf@ =~= old(self).buf@ + bytes@.take(i as int));
        }
        assert(bytes@.take(i as int) =~= bytes@);
        *self = Decoder { buf, cursor };
        assert(self.pending() =~= old(self).pending() + bytes@);
    }

    /// The buffer's length, consumed bytes included.
    pub fn buffered_len(&self) -> (n: usize)
        ensures
            n == self.held(),
    {
        self.buf.len()
    }

    /// Takes the next whole frame from the front of the pending bytes.
    /// `Ok(None)` when they stop short of a frame; the pending bytes are then
    /// kept as they are, so the frame is read again once more bytes are fed.
    /// On an error nothing is consumed either. After a frame, once
    /// `COMPACT_AT` or more bytes have been consumed, they are dropped from
    /// the buffer.
    pub fn next_frame(&mut self) -> (r: Result<Option<Frame>, Error>)
        ensures
            match parse_frame(old(self).pending()) {
                Parsed::Complete(v, n) => {
                    &&& r matches Ok(Some(f)) && f@ == v
                    &&& final(self).pending() == old(self).pending().skip(n as int)
                    &&& final(self).held() == if old(self).held() - old(self).pending().len() + n
                        >= COMPACT_AT {
                        final(self).pending().len()
                    } else {
                        old(self).held()
                    }
                },
                Parsed::Incomplete => {
                    &&& r matches Ok(None)
                    &&& final(self).pending() == old(self).pending()
                    &&& final(self).held() == old(self).held()
                },
                Parsed::Invalid(e) => {
                    &&& r == Err::<Option<Frame>, Error>(e)
                    &&& final(self).pending() == old(self).pending()
                    &&& final(self).held() == old(self).held()
                },
            },
            final(self).held() < final(self).pending().len() + COMPACT_AT,
    {
        proof {
            use_type_invariant(&*self);
        }
        let rest = slice_subrange(self.buf.as_slice(), self.cursor, self.buf.len());
        assert(rest@ =~= self.pending());
        let r = parse(rest);
        proof {
            lemma_parse_length(rest@);
        }
        match r {
            Err(e) => Err(e),
            Ok(None) => Ok(None),
            Ok(Some((frame, consumed))) => {
                let ghost before = self.buf@;
                let next = self.cursor + consumed;
                if next >= COMPACT_AT {
                    let mut taken = Decoder::new();
                    std::mem::swap(self, &mut taken);
                    let Decoder { mut buf, cursor: _ } = taken;
                    let tail = buf.split_off(next);
                    *self = Decoder { buf: tail, cursor: 0 };
                    assert(self.pending() =~= before.skip(old(self).cursor as int).skip(
                        consumed as int,
                    ));
                } else {
                    let mut taken = Decoder::new();
                    std::mem::swap(self, &mut taken);
                    let Decoder { buf, cursor: _ } = taken;
                    *self = Decoder { buf, cursor: next };
                    assert(self.pending() =~= before.skip(old(self).cursor as int).skip(
                        consumed as int,
                    ));
                }
                Ok(Some(frame))
            },
        }
    }
}

impl Default for Decoder {
    fn default() -> (d: Self)
        ensures
            d.pending() == Seq::<u8>::empty(),
            d.held() == 0,
    {
        Decoder::new()
    }
}

} // verus!
