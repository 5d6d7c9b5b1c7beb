//! Frames to bytes: replies with `encode`, commands with `encode_command`.
use vstd::prelude::*;
use vstd::string::*;
use crate::decimal::format_u64;
use crate::decimal::format_i64;
use crate::resp::frame::{
    Frame,
    FrameV,
    bulk,
    crlf,
    encodable,
    encode_frame,
    lemma_encodable_items,
    encode_items,
    line,
    null_bytes,
};

verus! {

/// The frames of a command: each argument as a bulk string.
pub open spec fn command_items(args: Seq<Seq<u8>>) -> Seq<FrameV> {
    args.map_values(|a: Seq<u8>| FrameV::Bulk(a))
}

/// The encoding of a sequence grows by the encoding of what is appended.
pub proof fn lemma_encode_items_push(items: Seq<FrameV>, v: FrameV)
    ensures
        encode_items(items.push(v)) == encode_items(items) + encode_frame(v),
    decreases items.len(),
{
    if items.len() == 0 {
        assert(items =~= Seq::<FrameV>::empty());
        assert(items.push(v).drop_first() =~= Seq::<FrameV>::empty());
        assert(encode_frame(v) + Seq::<u8>::empty() =~= encode_frame(v));
    } else {
        lemma_encode_items_push(items.drop_first(), v);
        assert(items.push(v).drop_first() =~= items.drop_first().push(v));
        assert(items.push(v)[0] == items[0]);
        assert((encode_frame(items[0]) + encode_items(items.drop_first())) + encode_frame(v)
            =~= encode_frame(items[0]) + (encode_items(items.drop_first()) + encode_frame(v)));
    }
}

fn append_bytes(out: &mut Vec<u8>, bytes: &[u8])
    ensures
        final(out)@ == old(out)@ + bytes@,
{
    let mut i: usize = 0;
    while i < bytes.len()
        invariant
            i <= bytes@.len(),
            out@ == old(out)@ + bytes@.take(i as int),
        decreases bytes@.len() - i,
    {
        out.push(bytes[i]);
        i += 1;
        assert(out@ =~= old(out)@ + bytes@.take(i as int));
    }
    assert(bytes@.take(i as int) =~= bytes@);
}

fn write_crlf(out: &mut Vec<u8>)
    ensures
        final(out)@ == old(out)@ + crlf(),
{
    out.push(13u8);
    out.push(10u8);
    assert(out@ =~= old(out)@ + crlf());
}

fn write_line(out: &mut Vec<u8>, prefix: u8, payload: &[u8])
    ensures
        final(out)@ == old(out)@ + line(prefix, payload@),
{
    out.push(prefix);
    append_bytes(out, payload);
    write_crlf(out);
    assert(out@ =~= old(out)@ + line(prefix, payload@));
}

fn write_bulk(out: &mut Vec<u8>, bytes: &[u8])
    ensures
        final(out)@ == old(out)@ + bulk(bytes@),
{
    let len = format_u64(bytes.len() as u64);
    write_line(out, 36u8, len.as_slice());
    append_bytes(out, bytes);
    write_crlf(out);
    assert(out@ =~= old(out)@ + bulk(bytes@));
}

fn write_frame(out: &mut Vec<u8>, frame: &Frame)
    requires
        encodable(frame@),
    ensures
        final(out)@ == old(out)@ + encode_frame(frame@),
    decreases frame,
{
    match frame {
        Frame::SimpleString(s) => {
            write_line(out, 43u8, s.as_str().as_bytes());
        },
        Frame::Error(s) => {
            write_line(out, 45u8, s.as_str().as_bytes());
        },
        Frame::Integer(n) => {
            let digits = format_i64(*n);
            write_line(out, 58u8, digits.as_slice());
        },
        Frame::Null => {
            out.push(36u8);
            out.push(45u8);
            out.push(49u8);
            write_crlf(out);
            assert(out@ =~= old(out)@ + null_bytes());
        },
        Frame::BulkString(bytes) => {
            write_bulk(out, bytes.as_slice());
        },
        Frame::Array(items) => {
            let ghost w = match frame@ {
                FrameV::Array(w) => w,
                _ => Seq::empty(),
            };
            assert(w.len() == items@.len());
            proof {
                lemma_encodable_items(w);
            }
            let count = format_u64(items.len() as u64);
            write_line(out, 42u8, count.as_slice());
            let ghost start = out@;
            let mut i: usize = 0;
            while i < items.len()
                invariant
                    i <= items@.len(),
                    *frame == Frame::Array(*items),
                    w.len() == items@.len(),
                    forall|j: int| 0 <= j < items@.len() ==> #[trigger] w[j] == items@[j]@,
                    forall|j: int| 0 <= j < w.len() ==> encodable(#[trigger] w[j]),
                    out@ == start + encode_items(w.take(i as int)),
                decreases items@.len() - i,
            {
                proof {
                    assert(decreases_to!(*frame => (*frame)->Array_0));
                    assert(decreases_to!(*items => items@));
                    assert(decreases_to!(items@ => items@[i as int]));
                }
                write_frame(out, &items[i]);
                proof {
                    lemma_encode_items_push(w.take(i as int), w[i as int]);
                    assert(w.take(i as int).push(w[i as int]) =~= w.take(i + 1));
                }
                i += 1;
            }
            assert(w.take(i as int) =~= w);
        },
    }
}

/// The wire form of a reply frame. A simple string or an error, at any
/// depth, must hold no `\r` and no `\n`.
pub fn encode(frame: &Frame) -> (r: Vec<u8>)
    requires
        encodable(frame@),
    ensures
        r@ == encode_frame(frame@),
{
    let mut out = Vec::new();
    write_frame(&mut out, frame);
    assert(out@ =~= encode_frame(frame@));
    out
}

/// The wire form of a command: an array of bulk strings, one per argument.
pub fn encode_command(args: &[&[u8]]) -> (r: Vec<u8>)
    ensures
        r@ == encode_frame(
            FrameV::Array(command_items(args@.map_values(|a: &[u8]| a@))),
        ),
{
    let ghost w = command_items(args@.map_values(|a: &[u8]| a@));
    let mut out = Vec::new();
    let count = format_u64(args.len() as u64);
    write_line(&mut out, 42u8, count.as_slice());
    let ghost start = out@;
    let mut i: usize = 0;
    while i < args.len()
        invariant
            i <= args@.len(),
            w == command_items(args@.map_values(|a: &[u8]| a@)),
            out@ == start + encode_items(w.take(i as int)),
        decreases args@.len() - i,
    {
        write_bulk(&mut out, args[i]);
        proof {
            assert(w[i as int] == FrameV::Bulk(args@[i as int]@));
            lemma_encode_items_push(w.take(i as int), w[i as int]);
            assert(w.take(i as int).push(w[i as int]) =~= w.take(i + 1));
        }
        i += 1;
    }
    assert(w.take(i as int) =~= w);
    assert(out@ =~= encode_frame(FrameV::Array(w)));
    out
}

} // verus!
