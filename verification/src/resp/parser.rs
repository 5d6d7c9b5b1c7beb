//! Bytes to frames. `parse` reads one frame from the front of a buffer and
//! says how many bytes it took; a buffer that stops short of a whole frame is
//! incomplete, never an error.
use vstd::prelude::*;
use vstd::slice::*;
use vstd::utf8::*;
use crate::decimal::{parse_signed, parse_unsigned, parse_i64_bytes, parse_unsigned_bytes};
use crate::resp::error::{Error, MAX_BULK_LEN};
use crate::resp::frame::{Frame, FrameV};
use crate::text::{slice_to_vec_u8, string_from_utf8};

verus! {

broadcast use group_utf8_lib;

/// What reading one frame from the front of a buffer gives.
pub enum Parsed {
    /// The buffer is a prefix of a frame: more bytes are needed.
    Incomplete,
    /// A whole frame, and the number of bytes it took.
    Complete(FrameV, nat),
    /// The bytes are not RESP2.
    Invalid(Error),
}

/// What reading a given number of frames, one after another, gives.
pub enum ParsedItems {
    Incomplete,
    Complete(Seq<FrameV>, nat),
    Invalid(Error),
}

/// The first position at or after `i` where the bytes `\r\n` start.
pub open spec fn find_crlf(s: Seq<u8>, i: int) -> Option<int>
    decreases s.len() - i,
{
    if i < 0 || i + 1 >= s.len() {
        None
    } else if s[i] == 13 && s[i + 1] == 10 {
        Some(i)
    } else {
        find_crlf(s, i + 1)
    }
}

/// The bytes `-1`, the null length.
pub open spec fn minus_one() -> Seq<u8> {
    seq![45u8, 49u8]
}

/// The bytes that start the five frame types: `+ - : $ *`.
pub open spec fn is_type_byte(b: u8) -> bool {
    b == 43 || b == 45 || b == 58 || b == 36 || b == 42
}

/// The body of a bulk string of `len` bytes that starts at `start`.
pub open spec fn parse_bulk_body(s: Seq<u8>, start: nat, len: nat) -> Parsed {
    if len > MAX_BULK_LEN {
        Parsed::Invalid(Error::LengthTooLarge(len as usize))
    } else if start + len + 2 > s.len() {
        Parsed::Incomplete
    } else if s[(start + len) as int] == 13 && s[(start + len + 1) as int] == 10 {
        Parsed::Complete(
            FrameV::Bulk(s.subrange(start as int, (start + len) as int)),
            start + len + 2,
        )
    } else {
        Parsed::Invalid(Error::MissingCrlf)
    }
}

/// One frame from the front of `s`.
pub open spec fn parse_frame(s: Seq<u8>) -> Parsed
    decreases s.len(), 0nat,
{
    if s.len() == 0 {
        Parsed::Incomplete
    } else if !is_type_byte(s[0]) {
        Parsed::Invalid(Error::UnknownType(s[0]))
    } else {
        match find_crlf(s, 0) {
            None => Parsed::Incomplete,
            Some(p) => {
                let data = s.subrange(1, p);
                let n = (p + 2) as nat;
                if !valid_utf8(data) {
                    Parsed::Invalid(Error::InvalidUtf8)
                } else if s[0] == 43 {
                    Parsed::Complete(FrameV::Simple(decode_utf8(data)), n)
                } else if s[0] == 45 {
                    Parsed::Complete(FrameV::Error(decode_utf8(data)), n)
                } else if s[0] == 58 {
                    match parse_signed(data, i64::MIN as int, i64::MAX as nat) {
                        Some(v) => Parsed::Complete(FrameV::Int(v), n),
                        None => Parsed::Invalid(Error::InvalidInteger),
                    }
                } else if data == minus_one() {
                    Parsed::Complete(FrameV::Null, n)
                } else {
                    match parse_unsigned(data, usize::MAX as nat) {
                        None => Parsed::Invalid(Error::InvalidInteger),
                        Some(len) => if s[0] == 36 {
                            parse_bulk_body(s, n, len)
                        } else if 0 < n <= s.len() {
                            array_outcome(n, parse_items(s.skip(n as int), len))
                        } else {
                            Parsed::Incomplete
                        },
                    }
                }
            },
        }
    }
}

/// An array whose count line took `n` bytes, given what reading its items gave.
pub open spec fn array_outcome(n: nat, items: ParsedItems) -> Parsed {
    match items {
        ParsedItems::Incomplete => Parsed::Incomplete,
        ParsedItems::Invalid(e) => Parsed::Invalid(e),
        ParsedItems::Complete(vs, m) => Parsed::Complete(FrameV::Array(vs), n + m),
    }
}

/// `count` frames, one after another, from the front of `s`.
pub open spec fn parse_items(s: Seq<u8>, count: nat) -> ParsedItems
    decreases s.len(), 1nat,
{
    if count == 0 {
        ParsedItems::Complete(Seq::empty(), 0)
    } else {
        match parse_frame(s) {
            Parsed::Incomplete => ParsedItems::Incomplete,
            Parsed::Invalid(e) => ParsedItems::Invalid(e),
            Parsed::Complete(v, m) => if 0 < m <= s.len() {
                prepend_item(v, m, parse_items(s.skip(m as int), (count - 1) as nat))
            } else {
                ParsedItems::Incomplete
            },
        }
    }
}

/// A frame of `m` bytes followed by what reading the rest gave.
pub open spec fn prepend_item(v: FrameV, m: nat, rest: ParsedItems) -> ParsedItems {
    match rest {
        ParsedItems::Complete(vs, k) => ParsedItems::Complete(seq![v] + vs, m + k),
        other => other,
    }
}

/// Frames already read, `m` bytes in all, followed by what reading the rest gave.
pub open spec fn prepend_items(vs: Seq<FrameV>, m: nat, rest: ParsedItems) -> ParsedItems {
    match rest {
        ParsedItems::Complete(ws, k) => ParsedItems::Complete(vs + ws, m + k),
        other => other,
    }
}

/// What a call of `parse` returned, as a `Parsed`.
pub open spec fn parse_outcome(r: Result<Option<(Frame, usize)>, Error>) -> Parsed {
    match r {
        Ok(None) => Parsed::Incomplete,
        Ok(Some((f, n))) => Parsed::Complete(f@, n as nat),
        Err(e) => Parsed::Invalid(e),
    }
}

proof fn lemma_find_crlf_bounds(s: Seq<u8>, i: int)
    ensures
        find_crlf(s, i) matches Some(p) ==> i <= p && p + 1 < s.len() && s[p] == 13 && s[p + 1]
            == 10,
        find_crlf(s, i) matches Some(p) ==> forall|j: int|
            i <= j < p ==> !(#[trigger] s[j] == 13 && s[j + 1] == 10),
        find_crlf(s, i) is None ==> forall|j: int|
            0 <= i <= j < s.len() - 1 ==> !(#[trigger] s[j] == 13 && s[j + 1] == 10),
    decreases s.len() - i,
{
    if !(i < 0 || i + 1 >= s.len()) && !(s[i] == 13 && s[i + 1] == 10) {
        lemma_find_crlf_bounds(s, i + 1);
    }
}

/// The position of the first `\r\n`.
fn find_crlf_exec(input: &[u8]) -> (r: Option<usize>)
    ensures
        r matches Some(p) ==> find_crlf(input@, 0) == Some(p as int),
        r is None ==> find_crlf(input@, 0) is None,
{
    let mut i: usize = 0;
    while i < input.len() && input.len() - i >= 2
        invariant
            find_crlf(input@, 0) == find_crlf(input@, i as int),
            i <= input@.len(),
        decreases input@.len() - i,
    {
        if input[i] == 13 && input[i + 1] == 10 {
            return Some(i);
        }
        i += 1;
    }
    None
}

/// The text of a line-terminated frame (between the type byte and the first
/// `\r\n`) and the number of bytes up to and including that `\r\n`.
fn read_simple_data(input: &[u8]) -> (r: Result<Option<(String, usize)>, Error>)
    requires
        input@.len() > 0,
        is_type_byte(input@[0]),
    ensures
        match r {
            Ok(None) => find_crlf(input@, 0) is None,
            Ok(Some((d, n))) => {
                &&& find_crlf(input@, 0) == Some(n - 2)
                &&& 3 <= n <= input@.len()
                &&& valid_utf8(input@.subrange(1, n - 2))
                &&& d@ == decode_utf8(input@.subrange(1, n - 2))
            },
            Err(e) => {
                &&& e == Error::InvalidUtf8
                &&& find_crlf(input@, 0) matches Some(p)
                &&& !valid_utf8(input@.subrange(1, p))
            },
        },
{
    proof {
        lemma_find_crlf_bounds(input@, 0);
    }
    let crlf_pos = match find_crlf_exec(input) {
        None => return Ok(None),
        Some(p) => p,
    };
    let len = input.len();
    assert(crlf_pos + 1 < len);
    let line = slice_subrange(input, 1, crlf_pos);
    match string_from_utf8(slice_to_vec_u8(line)) {
        Some(s) => Ok(Some((s, crlf_pos + 2))),
        None => Err(Error::InvalidUtf8),
    }
}

fn is_minus_one(d: &[u8]) -> (r: bool)
    ensures
        r == (d@ == minus_one()),
{
    let r = d.len() == 2 && d[0] == 45u8 && d[1] == 49u8;
    proof {
        if r {
            assert(d@ =~= minus_one());
        }
    }
    r
}

/// A bulk string: `Some(bytes)`, or `None` for the null length `-1`.
fn read_bulk_string(input: &[u8]) -> (r: Result<Option<(Option<&[u8]>, usize)>, Error>)
    requires
        input@.len() > 0,
        input@[0] == 36,
    ensures
        parse_frame(input@) == match r {
            Ok(None) => Parsed::Incomplete,
            Ok(Some((None, n))) => Parsed::Complete(FrameV::Null, n as nat),
            Ok(Some((Some(b), n))) => Parsed::Complete(FrameV::Bulk(b@), n as nat),
            Err(e) => Parsed::Invalid(e),
        },
{
    let (_, body_start) = match read_simple_data(input) {
        Err(e) => return Err(e),
        Ok(None) => return Ok(None),
        Ok(Some(v)) => v,
    };
    let digits = slice_subrange(input, 1, body_start - 2);
    if is_minus_one(digits) {
        return Ok(Some((None, body_start)));
    }
    let length = match parse_unsigned_bytes(digits, usize::MAX as u64) {
        None => return Err(Error::InvalidInteger),
        Some(v) => v as usize,
    };
    if length > MAX_BULK_LEN {
        return Err(Error::LengthTooLarge(length));
    }
    if length > input.len() - body_start || 2 > input.len() - body_start - length {
        return Ok(None);
    }
    let body_end = body_start + length;
    if input[body_end] == 13 && input[body_end + 1] == 10 {
        Ok(Some((Some(slice_subrange(input, body_start, body_end)), body_end + 2)))
    } else {
        Err(Error::MissingCrlf)
    }
}

/// Reading one frame of `m` bytes and then the rest.
proof fn lemma_parse_items_step(s: Seq<u8>, count: nat, v: FrameV, m: nat)
    requires
        count > 0,
        parse_frame(s) == Parsed::Complete(v, m),
        0 < m <= s.len(),
    ensures
        parse_items(s, count) == prepend_item(v, m, parse_items(s.skip(m as int), (count - 1) as nat)),
{
}

/// An array: its count line, then that many frames.
fn read_array(input: &[u8]) -> (r: Result<Option<(Frame, usize)>, Error>)
    requires
        input@.len() > 0,
        input@[0] == 42,
    ensures
        parse_outcome(r) == parse_frame(input@),
    decreases input@.len(), 0nat,
{
    let (_, header) = match read_simple_data(input) {
        Err(e) => return Err(e),
        Ok(None) => return Ok(None),
        Ok(Some(v)) => v,
    };
    let digits = slice_subrange(input, 1, header - 2);
    if is_minus_one(digits) {
        return Ok(Some((Frame::Null, header)));
    }
    let count = match parse_unsigned_bytes(digits, usize::MAX as u64) {
        None => return Err(Error::InvalidInteger),
        Some(v) => v as usize,
    };
    let ghost s = input@;
    let ghost whole = parse_items(s.skip(header as int), count as nat);
    assert(parse_frame(s) == array_outcome(header as nat, whole));
    let mut items: Vec<Frame> = Vec::new();
    let ghost mut vs: Seq<FrameV> = Seq::empty();
    let mut consumed = header;
    let mut i: usize = 0;
    while i < count
        invariant
            s == input@,
            3 <= header <= consumed <= s.len(),
            i <= count,
            vs.len() == items@.len() == i,
            forall|j: int| 0 <= j < i ==> #[trigger] items@[j]@ == vs[j],
            whole == prepend_items(
                vs,
                (consumed - header) as nat,
                parse_items(s.skip(consumed as int), (count - i) as nat),
            ),
            whole == parse_items(s.skip(header as int), count as nat),
            parse_frame(s) == array_outcome(header as nat, whole),
        decreases count - i,
    {
        let rest = slice_subrange(input, consumed, input.len());
        assert(rest@ =~= s.skip(consumed as int));
        let (frame, n) = match parse(rest) {
            Err(e) => return Err(e),
            Ok(None) => return Ok(None),
            Ok(Some(v)) => v,
        };
        proof {
            lemma_parse_length(rest@);
            lemma_parse_items_step(rest@, (count - i) as nat, frame@, n as nat);
            assert(s.skip(consumed as int).skip(n as int) =~= s.skip(consumed + n));
        }
        let ghost old_vs = vs;
        items.push(frame);
        proof {
            vs = vs.push(items@[i as int]@);
            assert(old_vs + (seq![items@[i as int]@]) =~= vs);
            assert(forall|a: Seq<FrameV>, b: Seq<FrameV>, c: Seq<FrameV>| (a + b) + c =~= a + (b + c));
        }
        consumed = consumed + n;
        i += 1;
    }
    assert(vs + Seq::<FrameV>::empty() =~= vs);
    let ghost items_view = items@;
    let result = Frame::Array(items);
    proof {
        if let FrameV::Array(w) = result@ {
            assert forall|j: int| 0 <= j < w.len() implies w[j] == vs[j] by {
                assert(items_view[j]@ == vs[j]);
            }
            assert(w =~= vs);
        }
    }
    assert(result@ == FrameV::Array(vs));
    assert(parse_items(s.skip(consumed as int), 0) == ParsedItems::Complete(Seq::empty(), 0));
    assert(whole == ParsedItems::Complete(vs, (consumed - header) as nat));
    Ok(Some((result, consumed)))
}

/// A frame that was read took at least three bytes and no more than there were.
pub proof fn lemma_parse_length(s: Seq<u8>)
    ensures
        parse_frame(s) matches Parsed::Complete(_, m) ==> 3 <= m <= s.len(),
    decreases s.len(), 0nat,
{
    lemma_find_crlf_bounds(s, 0);
    if s.len() > 0 && is_type_byte(s[0]) && s[0] == 42 {
        if let Some(p) = find_crlf(s, 0) {
            let n = (p + 2) as nat;
            if let Some(len) = parse_unsigned(s.subrange(1, p), usize::MAX as nat) {
                lemma_parse_items_length(s.skip(n as int), len);
            }
        }
    }
}

/// Frames that were read took no more bytes than there were.
pub proof fn lemma_parse_items_length(s: Seq<u8>, count: nat)
    ensures
        parse_items(s, count) matches ParsedItems::Complete(_, m) ==> m <= s.len(),
    decreases s.len(), 1nat,
{
    if count > 0 {
        lemma_parse_length(s);
        if let Parsed::Complete(v, m) = parse_frame(s) {
            if 0 < m <= s.len() {
                lemma_parse_items_length(s.skip(m as int), (count - 1) as nat);
            }
        }
    }
}

/// Reads one frame from the front of `input`: `Ok(Some((frame, n)))` when the
/// first `n` bytes are a whole frame, `Ok(None)` when `input` stops short of
/// one, and `Err` when the bytes are not RESP2.
pub fn parse(input: &[u8]) -> (r: Result<Option<(Frame, usize)>, Error>)
    ensures
        parse_outcome(r) == parse_frame(input@),
    decreases input@.len(), 1nat,
{
    if input.len() == 0 {
        return Ok(None);
    }
    let first = input[0];
    if first == 43u8 || first == 45u8 {
        match read_simple_data(input) {
            Err(e) => Err(e),
            Ok(None) => Ok(None),
            Ok(Some((d, n))) => {
                if first == 43u8 {
                    Ok(Some((Frame::SimpleString(d), n)))
                } else {
                    Ok(Some((Frame::Error(d), n)))
                }
            },
        }
    } else if first == 58u8 {
        match read_simple_data(input) {
            Err(e) => Err(e),
            Ok(None) => Ok(None),
            Ok(Some((_, n))) => {
                let digits = slice_subrange(input, 1, n - 2);
                match parse_i64_bytes(digits) {
                    Some(v) => Ok(Some((Frame::Integer(v), n))),
                    None => Err(Error::InvalidInteger),
                }
            },
        }
    } else if first == 36u8 {
        match read_bulk_string(input) {
            Err(e) => Err(e),
            Ok(None) => Ok(None),
            Ok(Some((None, n))) => Ok(Some((Frame::Null, n))),
            Ok(Some((Some(bytes), n))) => {
                let v = slice_to_vec_u8(bytes);
                Ok(Some((Frame::BulkString(v), n)))
            },
        }
    } else if first == 42u8 {
        read_array(input)
    } else {
        Err(Error::UnknownType(first))
    }
}

} // verus!
