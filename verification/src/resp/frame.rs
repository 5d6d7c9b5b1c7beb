//! RESP2 frames, their mathematical model and their wire encoding.
use vstd::prelude::*;
use vstd::utf8::encode_utf8;
use crate::decimal::{decimal, decimal_int};
use crate::resp::error::MAX_BULK_LEN;
use crate::text::no_crlf_chars;

verus! {

/// One RESP2 value.
#[derive(Debug, PartialEq)]
pub enum Frame {
    SimpleString(String),
    Error(String),
    Integer(i64),
    Null,
    BulkString(Vec<u8>),
    Array(Vec<Frame>),
}

/// The model of a frame: texts as character sequences, payloads as byte
/// sequences, integers as mathematical integers.
pub enum FrameV {
    Simple(Seq<char>),
    Error(Seq<char>),
    Int(int),
    Null,
    Bulk(Seq<u8>),
    Array(Seq<FrameV>),
}

/// The model of a frame.
pub open spec fn frame_view(f: Frame) -> FrameV
    decreases f,
{
    match f {
        Frame::SimpleString(s) => FrameV::Simple(s@),
        Frame::Error(s) => FrameV::Error(s@),
        Frame::Integer(n) => FrameV::Int(n as int),
        Frame::Null => FrameV::Null,
        Frame::BulkString(b) => FrameV::Bulk(b@),
        Frame::Array(items) => FrameV::Array(
            Seq::new(
                items@.len(),
                |i: int|
                    if 0 <= i < items@.len() {
                        frame_view(items@[i])
                    } else {
                        FrameV::Null
                    },
            ),
        ),
    }
}

impl View for Frame {
    type V = FrameV;

    open spec fn view(&self) -> FrameV {
        frame_view(*self)
    }
}

/// The bytes `\r\n`.
pub open spec fn crlf() -> Seq<u8> {
    seq![13u8, 10u8]
}

/// A type byte, a payload and `\r\n`.
pub open spec fn line(prefix: u8, payload: Seq<u8>) -> Seq<u8> {
    seq![prefix] + payload + crlf()
}

/// A bulk string: its length line, then the bytes, then `\r\n`.
pub open spec fn bulk(bytes: Seq<u8>) -> Seq<u8> {
    line(36, decimal(bytes.len())) + bytes + crlf()
}

/// The null frame as the encoder writes it: `$-1\r\n`.
pub open spec fn null_bytes() -> Seq<u8> {
    seq![36u8, 45u8, 49u8, 13u8, 10u8]
}

/// The wire encoding of a frame.
pub open spec fn encode_frame(v: FrameV) -> Seq<u8>
    decreases v,
{
    match v {
        FrameV::Simple(s) => line(43, encode_utf8(s)),
        FrameV::Error(s) => line(45, encode_utf8(s)),
        FrameV::Int(n) => line(58, decimal_int(n)),
        FrameV::Null => null_bytes(),
        FrameV::Bulk(b) => bulk(b),
        FrameV::Array(items) => line(42, decimal(items.len())) + encode_items(items),
    }
}

/// The wire encodings of frames, one after another.
pub open spec fn encode_items(items: Seq<FrameV>) -> Seq<u8>
    decreases items,
{
    if items.len() == 0 {
        Seq::empty()
    } else {
        encode_frame(items[0]) + encode_items(items.drop_first())
    }
}

/// A frame that reads back as itself: no `\r\n` inside a simple string or an
/// error, no bulk string longer than `MAX_BULK_LEN`, integers within `i64`, and
/// arrays of such frames no longer than `usize::MAX`.
pub open spec fn wf_frame(v: FrameV) -> bool
    decreases v,
{
    match v {
        FrameV::Simple(s) => no_crlf_chars(s),
        FrameV::Error(s) => no_crlf_chars(s),
        FrameV::Int(n) => i64::MIN <= n <= i64::MAX,
        FrameV::Null => true,
        FrameV::Bulk(b) => b.len() <= MAX_BULK_LEN,
        FrameV::Array(items) => items.len() <= usize::MAX && wf_items(items),
    }
}

/// Every frame of the sequence reads back as itself.
pub open spec fn wf_items(items: Seq<FrameV>) -> bool
    decreases items,
{
    if items.len() == 0 {
        true
    } else {
        wf_frame(items[0]) && wf_items(items.drop_first())
    }
}

/// No carriage return and no line feed anywhere in a text.
pub open spec fn no_line_breaks(s: Seq<char>) -> bool {
    forall|i: int| 0 <= i < s.len() ==> #[trigger] s[i] != '\r' && s[i] != '\n'
}

/// A frame the encoder takes: no `\r` or `\n` in a simple string or an
/// error, at any depth.
pub open spec fn encodable(v: FrameV) -> bool
    decreases v,
{
    match v {
        FrameV::Simple(s) => no_line_breaks(s),
        FrameV::Error(s) => no_line_breaks(s),
        FrameV::Array(items) => encodable_items(items),
        _ => true,
    }
}

/// Every frame of the sequence is one the encoder takes.
pub open spec fn encodable_items(items: Seq<FrameV>) -> bool
    decreases items,
{
    if items.len() == 0 {
        true
    } else {
        encodable(items[0]) && encodable_items(items.drop_first())
    }
}

/// A sequence the encoder takes is one whose frames it each takes.
pub proof fn lemma_encodable_items(items: Seq<FrameV>)
    ensures
        encodable_items(items) <==> forall|i: int| 0 <= i < items.len() ==> encodable(
            #[trigger] items[i],
        ),
    decreases items.len(),
{
    if items.len() > 0 {
        lemma_encodable_items(items.drop_first());
        if forall|i: int| 0 <= i < items.len() ==> encodable(#[trigger] items[i]) {
            assert forall|i: int| 0 <= i < items.drop_first().len() implies encodable(
                #[trigger] items.drop_first()[i],
            ) by {
                assert(items.drop_first()[i] == items[i + 1]);
            }
        }
        if encodable_items(items) {
            assert forall|i: int| 0 <= i < items.len() implies encodable(#[trigger] items[i]) by {
                if i > 0 {
                    assert(items.drop_first()[i - 1] == items[i]);
                }
            }
        }
    }
}

} // verus!
