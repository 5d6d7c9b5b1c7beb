//! What holds of the parser and the encoder together: a decided read does not
//! change when more bytes arrive, a complete read takes exactly its frame's
//! bytes and looks at nothing after them, every strict prefix of a complete
//! frame is incomplete, and every well-formed frame reads back as itself
//! from its encoding.
use vstd::prelude::*;
use vstd::utf8::*;
use crate::decimal::{
    all_digits,
    decimal,
    decimal_int,
    is_digit,
    lemma_decimal,
    lemma_parse_decimal,
    lemma_parse_decimal_int,
};
use crate::resp::error::MAX_BULK_LEN;
use crate::resp::frame::{
    FrameV,
    bulk,
    crlf,
    encode_frame,
    encode_items,
    line,
    null_bytes,
    wf_frame,
    wf_items,
};
use crate::resp::parser::{
    Parsed,
    ParsedItems,
    find_crlf,
    is_type_byte,
    minus_one,
    parse_bulk_body,
    parse_frame,
    parse_items,
    prepend_item,
};
use crate::resp::encoder::command_items;
use crate::text::{ascii_bytes, lemma_ascii_utf8, lemma_no_crlf_encode, no_crlf_bytes};

verus! {

broadcast use group_utf8_lib;

/// `\r\n` starts at `p`.
pub open spec fn crlf_at(s: Seq<u8>, p: int) -> bool {
    0 <= p && p + 1 < s.len() && s[p] == 13 && s[p + 1] == 10
}

proof fn lemma_find_crlf_is(s: Seq<u8>, i: int, p: int)
    requires
        0 <= i <= p,
        crlf_at(s, p),
        forall|j: int| i <= j < p ==> !#[trigger] crlf_at(s, j),
    ensures
        find_crlf(s, i) == Some(p),
    decreases p - i,
{
    if i < p {
        assert(!crlf_at(s, i));
        lemma_find_crlf_is(s, i + 1, p);
    }
}

proof fn lemma_find_crlf_none(s: Seq<u8>, i: int)
    requires
        0 <= i,
        forall|j: int| i <= j ==> !#[trigger] crlf_at(s, j),
    ensures
        find_crlf(s, i) is None,
    decreases s.len() - i,
{
    if i + 1 < s.len() {
        assert(!crlf_at(s, i));
        lemma_find_crlf_none(s, i + 1);
    }
}

proof fn lemma_find_crlf_facts(s: Seq<u8>, i: int)
    requires
        0 <= i,
    ensures
        find_crlf(s, i) matches Some(p) ==> i <= p && crlf_at(s, p) && forall|j: int|
            i <= j < p ==> !#[trigger] crlf_at(s, j),
        find_crlf(s, i) is None ==> forall|j: int| i <= j ==> !#[trigger] crlf_at(s, j),
    decreases s.len() - i,
{
    if i + 1 < s.len() && !(s[i] == 13 && s[i + 1] == 10) {
        lemma_find_crlf_facts(s, i + 1);
    }
}

/// The first `\r\n` of `s` is still the first one once more bytes follow,
/// and still the first one when bytes after it are cut off.
proof fn lemma_find_crlf_keep(s: Seq<u8>, s2: Seq<u8>, p: int)
    requires
        find_crlf(s, 0) == Some(p),
        p + 2 <= s2.len(),
        forall|j: int| 0 <= j < p + 2 ==> s2[j] == #[trigger] s[j],
    ensures
        find_crlf(s2, 0) == Some(p),
{
    lemma_find_crlf_facts(s, 0);
    assert forall|j: int| 0 <= j < p implies !#[trigger] crlf_at(s2, j) by {
        assert(!crlf_at(s, j));
        assert(s2[j] == s[j] && s2[j + 1] == s[j + 1]);
    }
    assert(s2[p] == s[p] && s2[p + 1] == s[p + 1]);
    lemma_find_crlf_is(s2, 0, p);
}

/// A line whose payload holds no `\r\n` ends at its own terminator, whatever follows.
proof fn lemma_find_crlf_line(prefix: u8, payload: Seq<u8>, rest: Seq<u8>)
    requires
        prefix != 13,
        no_crlf_bytes(payload),
    ensures
        find_crlf(line(prefix, payload) + rest, 0) == Some(payload.len() as int + 1),
{
    let s = line(prefix, payload) + rest;
    let p = payload.len() as int + 1;
    assert forall|j: int| 0 <= j < p implies !#[trigger] crlf_at(s, j) by {
        if j == 0 {
            assert(s[0] == prefix);
        } else if j < payload.len() {
            assert(s[j] == payload[j - 1] && s[j + 1] == payload[j]);
        } else {
            assert(s[j + 1] == 13);
        }
    }
    assert(s[p] == 13 && s[p + 1] == 10);
    lemma_find_crlf_is(s, 0, p);
}

/// A proper prefix of such a line holds no `\r\n`.
proof fn lemma_find_crlf_line_cut(prefix: u8, payload: Seq<u8>, j: int)
    requires
        prefix != 13,
        no_crlf_bytes(payload),
        0 <= j < line(prefix, payload).len(),
    ensures
        find_crlf(line(prefix, payload).take(j), 0) is None,
{
    let l = line(prefix, payload);
    let s = l.take(j);
    assert forall|q: int| 0 <= q implies !#[trigger] crlf_at(s, q) by {
        if crlf_at(s, q) {
            assert(s[q] == l[q] && s[q + 1] == l[q + 1]);
            if q == 0 {
                assert(l[0] == prefix);
            } else if q < payload.len() {
                assert(l[q] == payload[q - 1] && l[q + 1] == payload[q]);
            } else {
                assert(l[q + 1] == 13);
            }
        }
    }
    lemma_find_crlf_none(s, 0);
}

/// Decimal digits (with an optional leading `-`) are ASCII and hold no `\r\n`.
proof fn lemma_number_bytes(b: Seq<u8>)
    requires
        forall|i: int| 0 <= i < b.len() ==> is_digit(#[trigger] b[i]) || b[i] == 45,
    ensures
        ascii_bytes(b),
        no_crlf_bytes(b),
        valid_utf8(b),
{
    assert forall|i: int| 0 <= i < b.len() implies #[trigger] b[i] < 128 by {
        assert(is_digit(b[i]) || b[i] == 45);
    }
    assert forall|i: int| 0 <= i < b.len() - 1 implies !(#[trigger] b[i] == 13 && b[i + 1] == 10) by {
        assert(is_digit(b[i]) || b[i] == 45);
    }
    lemma_ascii_utf8(b);
}

proof fn lemma_decimal_bytes(n: nat)
    ensures
        ascii_bytes(decimal(n)),
        no_crlf_bytes(decimal(n)),
        valid_utf8(decimal(n)),
        decimal(n) != minus_one(),
{
    lemma_decimal(n);
    assert forall|i: int| 0 <= i < decimal(n).len() implies is_digit(#[trigger] decimal(n)[i])
        || decimal(n)[i] == 45 by {
        assert(all_digits(decimal(n)));
    }
    lemma_number_bytes(decimal(n));
    assert(is_digit(decimal(n)[0]));
}

proof fn lemma_decimal_int_bytes(n: int)
    ensures
        no_crlf_bytes(decimal_int(n)),
        valid_utf8(decimal_int(n)),
{
    if n < 0 {
        let d = decimal((-n) as nat);
        lemma_decimal((-n) as nat);
        let b = seq![45u8] + d;
        assert forall|i: int| 0 <= i < b.len() implies is_digit(#[trigger] b[i]) || b[i] == 45 by {
            if i > 0 {
                assert(b[i] == d[i - 1]);
                assert(all_digits(d));
            }
        }
        lemma_number_bytes(b);
    } else {
        lemma_decimal_bytes(n as nat);
    }
}

/// The line of a line-terminated frame, cut out of its encoding and whatever follows.
proof fn lemma_line_data(prefix: u8, payload: Seq<u8>, rest: Seq<u8>)
    ensures
        (line(prefix, payload) + rest).subrange(1, payload.len() as int + 1) == payload,
        (line(prefix, payload) + rest)[0] == prefix,
        (line(prefix, payload) + rest).skip(payload.len() as int + 3) == rest,
        line(prefix, payload).len() == payload.len() + 3,
{
    assert((line(prefix, payload) + rest).subrange(1, payload.len() as int + 1) =~= payload);
    assert((line(prefix, payload) + rest).skip(payload.len() as int + 3) =~= rest);
}

/// Once a read is decided (a whole frame or an error), more bytes after it
/// do not change it: the parser never looks past what it needs.
pub proof fn lemma_parse_stable(s: Seq<u8>, t: Seq<u8>)
    ensures
        !(parse_frame(s) is Incomplete) ==> parse_frame(s + t) == parse_frame(s),
    decreases s.len(), 0nat,
{
    if s.len() > 0 && is_type_byte(s[0]) {
        let st = s + t;
        assert(st[0] == s[0]);
        lemma_find_crlf_facts(s, 0);
        if let Some(p) = find_crlf(s, 0) {
            lemma_find_crlf_keep(s, st, p);
            assert(st.subrange(1, p) =~= s.subrange(1, p));
            let n = (p + 2) as nat;
            let data = s.subrange(1, p);
            if valid_utf8(data) && s[0] != 43 && s[0] != 45 && s[0] != 58 && data != minus_one() {
                if let Some(len) = crate::decimal::parse_unsigned(data, usize::MAX as nat) {
                    if s[0] == 36 {
                        if !(parse_bulk_body(s, n, len) is Incomplete) && len <= MAX_BULK_LEN {
                            assert(st.subrange(n as int, (n + len) as int) =~= s.subrange(n as int, (n + len) as int));
                        }
                    } else {
                        assert(st.skip(n as int) =~= s.skip(n as int) + t);
                        lemma_parse_items_stable(s.skip(n as int), t, len);
                    }
                }
            }
        }
    } else if s.len() > 0 {
        assert((s + t)[0] == s[0]);
    }
}

/// The same for reading several frames one after another.
pub proof fn lemma_parse_items_stable(s: Seq<u8>, t: Seq<u8>, count: nat)
    ensures
        !(parse_items(s, count) is Incomplete) ==> parse_items(s + t, count) == parse_items(
            s,
            count,
        ),
    decreases s.len(), 1nat,
{
    if count > 0 {
        lemma_parse_stable(s, t);
        crate::resp::parser::lemma_parse_length(s);
        if let Parsed::Complete(v, m) = parse_frame(s) {
            assert((s + t).skip(m as int) =~= s.skip(m as int) + t);
            lemma_parse_items_stable(s.skip(m as int), t, (count - 1) as nat);
        }
    }
}

/// A well-formed frame reads back from its encoding as itself, taking exactly
/// the whole encoding.
pub proof fn lemma_round_trip(v: FrameV)
    requires
        wf_frame(v),
    ensures
        parse_frame(encode_frame(v)) == Parsed::Complete(v, encode_frame(v).len()),
    decreases v,
{
    let e = encode_frame(v);
    let empty = Seq::<u8>::empty();
    match v {
        FrameV::Simple(s) => {
            lemma_no_crlf_encode(s);
            lemma_find_crlf_line(43, encode_utf8(s), empty);
            lemma_line_data(43, encode_utf8(s), empty);
            assert(line(43, encode_utf8(s)) + empty =~= e);
        },
        FrameV::Error(s) => {
            lemma_no_crlf_encode(s);
            lemma_find_crlf_line(45, encode_utf8(s), empty);
            lemma_line_data(45, encode_utf8(s), empty);
            assert(line(45, encode_utf8(s)) + empty =~= e);
        },
        FrameV::Int(n) => {
            lemma_decimal_int_bytes(n);
            lemma_parse_decimal_int(n, i64::MIN as int, i64::MAX as nat);
            lemma_find_crlf_line(58, decimal_int(n), empty);
            lemma_line_data(58, decimal_int(n), empty);
            assert(line(58, decimal_int(n)) + empty =~= e);
        },
        FrameV::Null => {
            assert(null_bytes() =~= line(36, minus_one()));
            assert forall|i: int| 0 <= i < minus_one().len() implies is_digit(
                #[trigger] minus_one()[i],
            ) || minus_one()[i] == 45 by {}
            lemma_number_bytes(minus_one());
            lemma_find_crlf_line(36, minus_one(), empty);
            lemma_line_data(36, minus_one(), empty);
            assert(line(36, minus_one()) + empty =~= e);
        },
        FrameV::Bulk(b) => {
            let d = decimal(b.len());
            lemma_decimal_bytes(b.len());
            lemma_parse_decimal(b.len(), usize::MAX as nat);
            let rest = b + crlf();
            assert(e =~= line(36, d) + rest);
            lemma_find_crlf_line(36, d, rest);
            lemma_line_data(36, d, rest);
            let n = d.len() as int + 3;
            assert(e.subrange(n, n + b.len() as int) =~= b);
            assert(e[n + b.len() as int] == 13 && e[n + b.len() as int + 1] == 10);
        },
        FrameV::Array(items) => {
            let d = decimal(items.len());
            lemma_decimal_bytes(items.len());
            lemma_parse_decimal(items.len(), usize::MAX as nat);
            let rest = encode_items(items);
            lemma_find_crlf_line(42, d, rest);
            lemma_line_data(42, d, rest);
            lemma_items_round_trip(items);
        },
    }
}

/// Well-formed frames, encoded one after another, read back as themselves.
pub proof fn lemma_items_round_trip(items: Seq<FrameV>)
    requires
        wf_items(items),
    ensures
        parse_items(encode_items(items), items.len()) == ParsedItems::Complete(
            items,
            encode_items(items).len(),
        ),
    decreases items,
{
    if items.len() > 0 {
        let head = encode_frame(items[0]);
        let tail = encode_items(items.drop_first());
        lemma_round_trip(items[0]);
        lemma_parse_stable(head, tail);
        lemma_items_round_trip(items.drop_first());
        assert((head + tail).skip(head.len() as int) =~= tail);
        assert(seq![items[0]] + items.drop_first() =~= items);
    } else {
        assert(items =~= Seq::<FrameV>::empty());
    }
}

/// A well-formed frame reads back as itself from the front of any stream
/// that starts with its encoding.
pub proof fn lemma_round_trip_in_stream(v: FrameV, rest: Seq<u8>)
    requires
        wf_frame(v),
    ensures
        parse_frame(encode_frame(v) + rest) == Parsed::Complete(v, encode_frame(v).len()),
{
    lemma_round_trip(v);
    lemma_parse_stable(encode_frame(v), rest);
}

/// Every proper prefix of a well-formed frame's encoding is incomplete: a
/// frame is never reported, nor an error, before all of its bytes are there.
pub proof fn lemma_prefix_incomplete(v: FrameV, j: int)
    requires
        wf_frame(v),
        0 <= j < encode_frame(v).len(),
    ensures
        parse_frame(encode_frame(v).take(j)) == Parsed::Incomplete,
    decreases v,
{
    let e = encode_frame(v);
    let empty = Seq::<u8>::empty();
    if j == 0 {
        return;
    }
    match v {
        FrameV::Simple(s) => {
            lemma_no_crlf_encode(s);
            lemma_find_crlf_line_cut(43, encode_utf8(s), j);
        },
        FrameV::Error(s) => {
            lemma_no_crlf_encode(s);
            lemma_find_crlf_line_cut(45, encode_utf8(s), j);
        },
        FrameV::Int(n) => {
            lemma_decimal_int_bytes(n);
            lemma_find_crlf_line_cut(58, decimal_int(n), j);
        },
        FrameV::Null => {
            assert(null_bytes() =~= line(36, minus_one()));
            assert forall|i: int| 0 <= i < minus_one().len() implies is_digit(
                #[trigger] minus_one()[i],
            ) || minus_one()[i] == 45 by {}
            lemma_number_bytes(minus_one());
            lemma_find_crlf_line_cut(36, minus_one(), j);
        },
        FrameV::Bulk(b) => {
            let d = decimal(b.len());
            lemma_decimal_bytes(b.len());
            lemma_parse_decimal(b.len(), usize::MAX as nat);
            let rest = b + crlf();
            assert(e =~= line(36, d) + rest);
            let h = line(36, d).len();
            if j < h {
                assert(e.take(j) =~= line(36, d).take(j));
                lemma_find_crlf_line_cut(36, d, j);
            } else {
                let c = e.take(j);
                lemma_find_crlf_line(36, d, rest);
                lemma_find_crlf_keep(e, c, d.len() as int + 1);
                lemma_line_data(36, d, rest);
                assert(c.subrange(1, d.len() as int + 1) =~= d);
            }
        },
        FrameV::Array(items) => {
            let d = decimal(items.len());
            lemma_decimal_bytes(items.len());
            lemma_parse_decimal(items.len(), usize::MAX as nat);
            let rest = encode_items(items);
            let h = line(42, d).len();
            if j < h {
                assert(e.take(j) =~= line(42, d).take(j));
                lemma_find_crlf_line_cut(42, d, j);
            } else {
                let c = e.take(j);
                lemma_find_crlf_line(42, d, rest);
                lemma_find_crlf_keep(e, c, d.len() as int + 1);
                lemma_line_data(42, d, rest);
                assert(c.subrange(1, d.len() as int + 1) =~= d);
                assert(c.skip(h as int) =~= rest.take(j - h));
                lemma_items_prefix_incomplete(items, j - h);
            }
        },
    }
}

/// Every proper prefix of well-formed frames encoded one after another is
/// incomplete when all of them are asked for.
pub proof fn lemma_items_prefix_incomplete(items: Seq<FrameV>, j: int)
    requires
        wf_items(items),
        0 <= j < encode_items(items).len(),
    ensures
        parse_items(encode_items(items).take(j), items.len()) == ParsedItems::Incomplete,
    decreases items,
{
    let head = encode_frame(items[0]);
    let tail = encode_items(items.drop_first());
    let c = encode_items(items).take(j);
    if j < head.len() {
        assert(c =~= head.take(j));
        lemma_prefix_incomplete(items[0], j);
    } else {
        lemma_round_trip(items[0]);
        assert(c =~= head + tail.take(j - head.len()));
        lemma_parse_stable(head, tail.take(j - head.len()));
        assert(c.skip(head.len() as int) =~= tail.take(j - head.len()));
        lemma_items_prefix_incomplete(items.drop_first(), j - head.len());
    }
}

/// A command whose arguments are no longer than `MAX_BULK_LEN` reads back as
/// the array of those arguments as bulk strings.
pub proof fn lemma_command_round_trip(args: Seq<Seq<u8>>)
    requires
        args.len() <= usize::MAX,
        forall|i: int| 0 <= i < args.len() ==> (#[trigger] args[i]).len() <= MAX_BULK_LEN,
    ensures
        parse_frame(encode_frame(FrameV::Array(command_items(args)))) == Parsed::Complete(
            FrameV::Array(command_items(args)),
            encode_frame(FrameV::Array(command_items(args))).len(),
        ),
{
    lemma_command_items_wf(args);
    lemma_round_trip(FrameV::Array(command_items(args)));
}

proof fn lemma_command_items_wf(args: Seq<Seq<u8>>)
    requires
        forall|i: int| 0 <= i < args.len() ==> (#[trigger] args[i]).len() <= MAX_BULK_LEN,
    ensures
        wf_items(command_items(args)),
    decreases args.len(),
{
    if args.len() > 0 {
        let rest = args.drop_first();
        assert forall|i: int| 0 <= i < rest.len() implies (#[trigger] rest[i]).len()
            <= MAX_BULK_LEN by {
            assert(rest[i] == args[i + 1]);
        }
        lemma_command_items_wf(rest);
        assert(command_items(args).drop_first() =~= command_items(rest));
        assert(args[0].len() <= MAX_BULK_LEN);
        assert(command_items(args)[0] == FrameV::Bulk(args[0]));
        assert(wf_frame(command_items(args)[0]));
        assert(command_items(args).len() > 0);
    } else {
        assert(command_items(args).len() == 0);
    }
}

/// A complete read depends only on the bytes it took: any buffer that
/// agrees with `s` on those bytes, whatever follows them, reads the same.
proof fn lemma_read_depends_on_frame(s: Seq<u8>, s2: Seq<u8>)
    requires
        parse_frame(s) matches Parsed::Complete(_, n) && n <= s2.len() && forall|j: int|
            0 <= j < n ==> #[trigger] s2[j] == s[j],
    ensures
        parse_frame(s2) == parse_frame(s),
    decreases s.len(), 0nat,
{
    crate::resp::parser::lemma_parse_length(s);
    let n = parse_frame(s)->Complete_1;
    assert(s2[0] == s[0]);
    lemma_find_crlf_facts(s, 0);
    let p = find_crlf(s, 0)->Some_0;
    let n0 = (p + 2) as nat;
    let data = s.subrange(1, p);
    assert(n0 <= n);
    lemma_find_crlf_keep(s, s2, p);
    assert(s2.subrange(1, p) =~= data);
    if valid_utf8(data) && s[0] != 43 && s[0] != 45 && s[0] != 58 && data != minus_one() {
        let len = crate::decimal::parse_unsigned(data, usize::MAX as nat)->Some_0;
        if s[0] == 36 {
            assert(s2.subrange(n0 as int, (n0 + len) as int) =~= s.subrange(
                n0 as int,
                (n0 + len) as int,
            ));
            assert(s2[(n0 + len) as int] == s[(n0 + len) as int]);
            assert(s2[(n0 + len + 1) as int] == s[(n0 + len + 1) as int]);
        } else {
            let m = parse_items(s.skip(n0 as int), len)->Complete_1;
            assert forall|j: int| 0 <= j < m implies #[trigger] s2.skip(n0 as int)[j] == s.skip(
                n0 as int,
            )[j] by {
                assert(s2[n0 + j] == s[n0 + j]);
            }
            lemma_items_depend_on_frames(s.skip(n0 as int), s2.skip(n0 as int), len);
        }
    }
}

/// The same for reading several frames one after another.
proof fn lemma_items_depend_on_frames(s: Seq<u8>, s2: Seq<u8>, count: nat)
    requires
        parse_items(s, count) matches ParsedItems::Complete(_, m) && m <= s2.len() && forall|
            j: int,
        |
            0 <= j < m ==> #[trigger] s2[j] == s[j],
    ensures
        parse_items(s2, count) == parse_items(s, count),
    decreases s.len(), 1nat,
{
    if count > 0 {
        crate::resp::parser::lemma_parse_items_length(s, count);
        crate::resp::parser::lemma_parse_length(s);
        let m = parse_items(s, count)->Complete_1;
        let m1 = parse_frame(s)->Complete_1;
        let rest = parse_items(s.skip(m1 as int), (count - 1) as nat);
        let k = rest->Complete_1;
        assert(m == m1 + k);
        lemma_read_depends_on_frame(s, s2);
        assert forall|j: int| 0 <= j < k implies #[trigger] s2.skip(m1 as int)[j] == s.skip(
            m1 as int,
        )[j] by {
            assert(s2[m1 + j] == s[m1 + j]);
        }
        lemma_items_depend_on_frames(s.skip(m1 as int), s2.skip(m1 as int), (count - 1) as nat);
    }
}

/// A complete read of `n` bytes takes exactly the frame's bytes and never
/// looks past them: with anything at all after the first `n` bytes, the read
/// is the same.
pub proof fn lemma_complete_reads_only_frame(s: Seq<u8>, t: Seq<u8>)
    requires
        parse_frame(s) is Complete,
    ensures
        parse_frame(s) matches Parsed::Complete(_, n) ==> 0 < n <= s.len() && parse_frame(
            s.take(n as int) + t,
        ) == parse_frame(s),
{
    crate::resp::parser::lemma_parse_length(s);
    let n = parse_frame(s)->Complete_1;
    let s2 = s.take(n as int) + t;
    assert forall|j: int| 0 <= j < n implies #[trigger] s2[j] == s[j] by {}
    lemma_read_depends_on_frame(s, s2);
}

/// The same for reading several frames one after another.
pub proof fn lemma_complete_items_read_only_frames(s: Seq<u8>, t: Seq<u8>, count: nat)
    requires
        parse_items(s, count) is Complete,
    ensures
        parse_items(s, count) matches ParsedItems::Complete(_, m) ==> m <= s.len() && parse_items(
            s.take(m as int) + t,
            count,
        ) == parse_items(s, count),
{
    crate::resp::parser::lemma_parse_items_length(s, count);
    let m = parse_items(s, count)->Complete_1;
    let s2 = s.take(m as int) + t;
    assert forall|j: int| 0 <= j < m implies #[trigger] s2[j] == s[j] by {}
    lemma_items_depend_on_frames(s, s2, count);
}

/// Every strict prefix of the bytes of a complete frame, however it is
/// spelled, is incomplete: a frame is never reported, nor an error, before
/// all of its bytes are there.
pub proof fn lemma_prefix_of_complete(s: Seq<u8>, k: int)
    requires
        parse_frame(s) matches Parsed::Complete(_, n) && 0 <= k < n,
    ensures
        parse_frame(s.take(k)) == Parsed::Incomplete,
    decreases s.len(), 0nat,
{
    crate::resp::parser::lemma_parse_length(s);
    let n = parse_frame(s)->Complete_1;
    let t = s.take(k);
    if k == 0 {
        assert(t.len() == 0);
        return;
    }
    assert(t[0] == s[0]);
    lemma_find_crlf_facts(s, 0);
    let p = find_crlf(s, 0)->Some_0;
    let n0 = (p + 2) as nat;
    let data = s.subrange(1, p);
    assert(n0 <= n);
    if k < n0 {
        assert forall|j: int| 0 <= j implies !#[trigger] crlf_at(t, j) by {
            if crlf_at(t, j) {
                assert(t[j] == s[j] && t[j + 1] == s[j + 1]);
                assert(crlf_at(s, j));
            }
        }
        lemma_find_crlf_none(t, 0);
    } else {
        assert forall|j: int| 0 <= j < n0 implies #[trigger] t[j] == s[j] by {}
        lemma_find_crlf_keep(s, t, p);
        assert(t.subrange(1, p) =~= data);
        if s[0] == 42 {
            let len = crate::decimal::parse_unsigned(data, usize::MAX as nat)->Some_0;
            let m = parse_items(s.skip(n0 as int), len)->Complete_1;
            assert(t.skip(n0 as int) =~= s.skip(n0 as int).take(k - n0));
            lemma_items_prefix_of_complete(s.skip(n0 as int), len, k - n0);
        }
    }
}

/// Every strict prefix of the bytes of complete frames read one after
/// another is incomplete when all of them are asked for.
pub proof fn lemma_items_prefix_of_complete(s: Seq<u8>, count: nat, k: int)
    requires
        parse_items(s, count) matches ParsedItems::Complete(_, m) && 0 <= k < m,
    ensures
        parse_items(s.take(k), count) == ParsedItems::Incomplete,
    decreases s.len(), 1nat,
{
    crate::resp::parser::lemma_parse_items_length(s, count);
    crate::resp::parser::lemma_parse_length(s);
    let m1 = parse_frame(s)->Complete_1;
    let rest = parse_items(s.skip(m1 as int), (count - 1) as nat);
    let r = rest->Complete_1;
    let t = s.take(k);
    if k < m1 {
        lemma_prefix_of_complete(s, k);
    } else {
        assert forall|j: int| 0 <= j < m1 implies #[trigger] t[j] == s[j] by {}
        lemma_read_depends_on_frame(s, t);
        assert(t.skip(m1 as int) =~= s.skip(m1 as int).take(k - m1));
        lemma_items_prefix_of_complete(s.skip(m1 as int), (count - 1) as nat, k - m1);
    }
}

} // verus!
