//! Length-prefixed framing: each payload goes on the wire after its length
//! as a 4-byte big-endian number. Decoding takes a whole frame off the front
//! of a `BytesMut` buffer, or leaves the buffer alone until one has arrived.
use vstd::prelude::*;
use bytes::{Buf, Bytes, BytesMut};

verus! {

#[verifier::external_type_specification]
#[verifier::external_body]
pub struct ExBytesMut(BytesMut);

#[verifier::external_type_specification]
#[verifier::external_body]
pub struct ExBytes(Bytes);

/// The bytes a `BytesMut` holds.
pub uninterp spec fn bytes_mut_contents(b: BytesMut) -> Seq<u8>;

/// The bytes a `Bytes` holds.
pub uninterp spec fn bytes_contents(b: Bytes) -> Seq<u8>;

/// `<BytesMut as Deref>::deref`: the claim is that the slice is the bytes
/// the buffer holds.
#[verifier::external_body]
fn bytes_mut_slice(b: &BytesMut) -> (r: &[u8])
    ensures
        r@ == bytes_mut_contents(*b),
{
    &b[..]
}

/// `<Bytes as Deref>::deref`: the claim is that the slice is the bytes held.
#[verifier::external_body]
fn bytes_slice(b: &Bytes) -> (r: &[u8])
    ensures
        r@ == bytes_contents(*b),
{
    &b[..]
}

/// `BytesMut::extend_from_slice`: the claim is that the bytes are appended.
/// It reserves room first, which panics when the new length overflows
/// `usize`; that input is excluded.
#[verifier::external_body]
fn bytes_mut_extend(b: &mut BytesMut, extend: &[u8])
    requires
        bytes_mut_contents(*old(b)).len() + extend@.len() <= usize::MAX,
    ensures
        bytes_mut_contents(*final(b)) == bytes_mut_contents(*old(b)) + extend@,
{
    b.extend_from_slice(extend)
}

/// `BytesMut::reserve`: the claim is that the bytes held do not change (only
/// the capacity, which is not modelled). It panics when the needed capacity
/// overflows `usize`; that input is excluded.
#[verifier::external_body]
fn bytes_mut_reserve(b: &mut BytesMut, additional: usize)
    requires
        bytes_mut_contents(*old(b)).len() + additional <= usize::MAX,
    ensures
        bytes_mut_contents(*final(b)) == bytes_mut_contents(*old(b)),
{
    b.reserve(additional)
}

/// `<BytesMut as Buf>::advance`: the claim is that the first `cnt` bytes are
/// dropped. It panics when `cnt` exceeds the length; that input is excluded.
#[verifier::external_body]
fn bytes_mut_advance(b: &mut BytesMut, cnt: usize)
    requires
        cnt <= bytes_mut_contents(*old(b)).len(),
    ensures
        bytes_mut_contents(*final(b)) == bytes_mut_contents(*old(b)).skip(cnt as int),
{
    b.advance(cnt)
}

/// `BytesMut::split_to`: the claim is that the first `at` bytes are returned
/// and the rest stay. It panics when `at` exceeds the length; excluded.
#[verifier::external_body]
fn bytes_mut_split_to(b: &mut BytesMut, at: usize) -> (r: BytesMut)
    requires
        at <= bytes_mut_contents(*old(b)).len(),
    ensures
        bytes_mut_contents(r) == bytes_mut_contents(*old(b)).take(at as int),
        bytes_mut_contents(*final(b)) == bytes_mut_contents(*old(b)).skip(at as int),
{
    b.split_to(at)
}

/// `BytesMut::freeze`: the claim is that the bytes held are the same.
#[verifier::external_body]
fn bytes_mut_freeze(b: BytesMut) -> (r: Bytes)
    ensures
        bytes_contents(r) == bytes_mut_contents(b),
{
    b.freeze()
}

/// How many bytes a buffer holds.
pub fn buffer_len(b: &BytesMut) -> (n: usize)
    ensures
        n == bytes_mut_contents(*b).len(),
{
    bytes_mut_slice(b).len()
}

/// How many bytes a payload holds.
pub fn payload_len(b: &Bytes) -> (n: usize)
    ensures
        n == bytes_contents(*b).len(),
{
    bytes_slice(b).len()
}

/// The largest payload a frame may carry (4 MiB).
pub const MAX_FRAME: usize = 4194304;

/// Why a payload or a frame was refused.
#[derive(Debug, Clone, Copy, PartialEq, Eq, Structural)]
pub enum CodecError {
    /// A payload to send is longer than `MAX_FRAME`.
    PayloadTooLarge(usize),
    /// A received frame declares a length above `MAX_FRAME`.
    FrameTooLarge(usize),
}

/// The 4-byte big-endian spelling of `n` (`u32::to_be_bytes`).
pub open spec fn be32(n: nat) -> Seq<u8> {
    seq![
        ((n / 0x1000000) % 256) as u8,
        ((n / 0x10000) % 256) as u8,
        ((n / 0x100) % 256) as u8,
        (n % 256) as u8,
    ]
}

/// The number four big-endian bytes spell (`u32::from_be_bytes`).
pub open spec fn be32_value(b: Seq<u8>) -> nat {
    (b[0] as nat) * 0x1000000 + (b[1] as nat) * 0x10000 + (b[2] as nat) * 0x100 + (b[3] as nat)
}

/// A payload on the wire: its length, then its bytes.
pub open spec fn frame_bytes(payload: Seq<u8>) -> Seq<u8> {
    be32(payload.len()) + payload
}

/// What decoding finds at the front of a buffer.
pub enum Decoded {
    /// Not yet a whole frame.
    Incomplete,
    /// A frame's payload, and the number of bytes the frame took.
    Frame(Seq<u8>, nat),
    /// A frame whose declared length is above `MAX_FRAME`.
    TooLarge(nat),
}

/// What decoding finds at the front of `c`.
pub open spec fn decode_frame(c: Seq<u8>) -> Decoded {
    if c.len() < 4 {
        Decoded::Incomplete
    } else {
        let len = be32_value(c);
        if len > MAX_FRAME {
            Decoded::TooLarge(len)
        } else if c.len() < 4 + len {
            Decoded::Incomplete
        } else {
            Decoded::Frame(c.subrange(4, 4 + len as int), 4 + len)
        }
    }
}

/// The codec; it keeps no state.
pub struct LengthPrefixedCodec {}

impl LengthPrefixedCodec {
    /// Appends `item` to `dst` as a frame, unless it is longer than `MAX_FRAME`
    /// (then `dst` is left as it was).
    pub fn encode(&mut self, item: Bytes, dst: &mut BytesMut) -> (r: Result<(), CodecError>)
        requires
            bytes_contents(item).len() <= MAX_FRAME ==> bytes_mut_contents(*old(dst)).len() + 4
                + bytes_contents(item).len() <= usize::MAX,
        ensures
            bytes_contents(item).len() > MAX_FRAME ==> {
                &&& r == Err::<(), CodecError>(
                    CodecError::PayloadTooLarge(bytes_contents(item).len() as usize),
                )
                &&& bytes_mut_contents(*final(dst)) == bytes_mut_contents(*old(dst))
            },
            bytes_contents(item).len() <= MAX_FRAME ==> {
                &&& r is Ok
                &&& bytes_mut_contents(*final(dst)) == bytes_mut_contents(*old(dst))
                    + frame_bytes(bytes_contents(item))
            },
    {
        let payload = bytes_slice(&item);
        let n = payload.len();
        if n > MAX_FRAME {
            return Err(CodecError::PayloadTooLarge(n));
        }
        let len_bytes = be32_bytes(n as u32);
        bytes_mut_reserve(dst, 4 + n);
        bytes_mut_extend(dst, len_bytes.as_slice());
        bytes_mut_extend(dst, payload);
        assert(bytes_mut_contents(*dst) =~= bytes_mut_contents(*old(dst)) + frame_bytes(
            bytes_contents(item),
        ));
        Ok(())
    }

    /// Takes the next frame's payload off the front of `src`. `Ok(None)` when
    /// `src` does not hold a whole frame yet; `src` then holds the same bytes.
    /// A declared length above `MAX_FRAME` is an error, and `src` is kept.
    pub fn decode(&mut self, src: &mut BytesMut) -> (r: Result<Option<Bytes>, CodecError>)
        ensures
            match decode_frame(bytes_mut_contents(*old(src))) {
                Decoded::Incomplete => {
                    &&& r matches Ok(None)
                    &&& bytes_mut_contents(*final(src)) == bytes_mut_contents(*old(src))
                },
                Decoded::TooLarge(len) => {
                    &&& r == Err::<Option<Bytes>, CodecError>(
                        CodecError::FrameTooLarge(len as usize),
                    )
                    &&& bytes_mut_contents(*final(src)) == bytes_mut_contents(*old(src))
                },
                Decoded::Frame(payload, n) => {
                    &&& r matches Ok(Some(b)) && bytes_contents(b) == payload
                    &&& bytes_mut_contents(*final(src)) == bytes_mut_contents(*old(src)).skip(
                        n as int,
                    )
                },
            },
    {
        let ghost c = bytes_mut_contents(*src);
        let view = bytes_mut_slice(src);
        let have = view.len();
        if have < 4 {
            return Ok(None);
        }
        let length = be32_read(view[0], view[1], view[2], view[3]) as usize;
        assert(length == be32_value(c));
        if length > MAX_FRAME {
            return Err(CodecError::FrameTooLarge(length));
        }
        if have < 4 + length {
            bytes_mut_reserve(src, 4 + length - have);
            return Ok(None);
        }
        bytes_mut_advance(src, 4);
        let frame = bytes_mut_split_to(src, length);
        assert(c.skip(4).take(length as int) =~= c.subrange(4, 4 + length));
        assert(c.skip(4).skip(length as int) =~= c.skip(4 + length));
        Ok(Some(bytes_mut_freeze(frame)))
    }
}

/// `u32::to_be_bytes`.
fn be32_bytes(n: u32) -> (r: Vec<u8>)
    ensures
        r@ == be32(n as nat),
{
    let mut v = Vec::new();
    v.push((n / 0x1000000) as u8);
    v.push(((n / 0x10000) % 256) as u8);
    v.push(((n / 0x100) % 256) as u8);
    v.push((n % 256) as u8);
    assert(v@ =~= be32(n as nat));
    v
}

/// `u32::from_be_bytes`.
fn be32_read(b0: u8, b1: u8, b2: u8, b3: u8) -> (r: u32)
    ensures
        r == be32_value(seq![b0, b1, b2, b3]),
{
    (b0 as u32) * 0x1000000 + (b1 as u32) * 0x10000 + (b2 as u32) * 0x100 + (b3 as u32)
}

/// The length read back from `be32(n)` is `n`.
pub proof fn lemma_be32(n: nat)
    requires
        n <= u32::MAX,
    ensures
        be32_value(be32(n)) == n,
{
    assert(((n / 0x1000000) % 256) * 0x1000000 + ((n / 0x10000) % 256) * 0x10000 + ((n / 0x100)
        % 256) * 0x100 + n % 256 == n) by (nonlinear_arith)
        requires
            n <= u32::MAX,
    ;
}

/// A payload no longer than `MAX_FRAME` decodes back from its frame, taking
/// exactly the frame and leaving whatever follows it.
pub proof fn lemma_frame_round_trip(payload: Seq<u8>, rest: Seq<u8>)
    requires
        payload.len() <= MAX_FRAME,
    ensures
        decode_frame(frame_bytes(payload) + rest) == Decoded::Frame(payload, 4 + payload.len()),
{
    let c = frame_bytes(payload) + rest;
    lemma_be32(payload.len());
    assert(be32_value(c) == be32_value(be32(payload.len())));
    assert(c.subrange(4, 4 + payload.len() as int) =~= payload);
}

/// Every proper prefix of a frame (payload no longer than `MAX_FRAME`) is
/// incomplete: a frame is never taken before all of its bytes are there.
pub proof fn lemma_frame_prefix_incomplete(payload: Seq<u8>, j: int)
    requires
        payload.len() <= MAX_FRAME,
        0 <= j < frame_bytes(payload).len(),
    ensures
        decode_frame(frame_bytes(payload).take(j)) == Decoded::Incomplete,
{
    let c = frame_bytes(payload).take(j);
    if j >= 4 {
        lemma_be32(payload.len());
        assert(be32_value(c) == be32_value(be32(payload.len())));
    }
}

} // verus!
