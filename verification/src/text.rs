//! Strings built from bytes: UTF-8 decoding, ASCII text and decimal numbers.
use vstd::prelude::*;
use vstd::utf8::*;
use vstd::string::*;
use crate::decimal::{decimal, decimal_chars, is_digit, lemma_decimal};

verus! {

broadcast use group_utf8_lib;

/// `String::from_utf8`: the bytes as a string when they are valid UTF-8.
/// The contract claims that the call succeeds exactly on valid UTF-8 (as
/// vstd's `valid_utf8` defines it) and that the string then holds the
/// characters that the bytes decode to.
#[verifier::external_body]
pub(crate) fn string_from_utf8(bytes: Vec<u8>) -> (r: Option<String>)
    ensures
        r is Some <==> valid_utf8(bytes@),
        r matches Some(s) ==> s@ == decode_utf8(bytes@),
{
    String::from_utf8(bytes).ok()
}

/// Every byte is below 128.
pub open spec fn ascii_bytes(b: Seq<u8>) -> bool {
    forall|i: int| 0 <= i < b.len() ==> #[trigger] b[i] < 128
}

/// The characters that ASCII bytes stand for.
pub open spec fn ascii_chars(b: Seq<u8>) -> Seq<char> {
    b.map_values(|x: u8| x as char)
}

/// ASCII bytes are their own UTF-8 encoding.
pub proof fn lemma_ascii_utf8(b: Seq<u8>)
    requires
        ascii_bytes(b),
    ensures
        is_ascii_chars(ascii_chars(b)),
        encode_utf8(ascii_chars(b)) == b,
        valid_utf8(b),
        decode_utf8(b) == ascii_chars(b),
{
    let c = ascii_chars(b);
    assert forall|i: int| 0 <= i < c.len() implies '\0' <= #[trigger] c[i] <= '\u{7f}' by {
        assert(b[i] < 128);
        assert(c[i] == b[i] as char);
    }
    is_ascii_chars_encode_utf8(c);
    assert forall|i: int| 0 <= i < b.len() implies #[trigger] encode_utf8(c)[i] == b[i] by {
        assert(c[i] as u8 == encode_utf8(c)[i]);
        assert(c[i] == b[i] as char);
        assert((b[i] as char) as u8 == b[i]);
    }
    assert(encode_utf8(c) =~= b);
    encode_utf8_decode_utf8(c);
}

/// A string holding the characters that ASCII bytes stand for.
pub fn ascii_string(bytes: &[u8]) -> (r: String)
    requires
        ascii_bytes(bytes@),
    ensures
        r@ == ascii_chars(bytes@),
{
    proof {
        lemma_ascii_utf8(bytes@);
    }
    let v = slice_to_vec_u8(bytes);
    match string_from_utf8(v) {
        Some(s) => s,
        None => String::new(),
    }
}

/// Copies a byte slice into a new vector.
pub fn slice_to_vec_u8(bytes: &[u8]) -> (r: Vec<u8>)
    ensures
        r@ == bytes@,
{
    let mut v: Vec<u8> = Vec::with_capacity(bytes.len());
    let mut i: usize = 0;
    while i < bytes.len()
        invariant
            i <= bytes@.len(),
            v@ == bytes@.take(i as int),
        decreases bytes@.len() - i,
    {
        v.push(bytes[i]);
        i += 1;
        assert(v@ =~= bytes@.take(i as int));
    }
    assert(bytes@.take(i as int) =~= bytes@);
    v
}

/// Decimal digits are ASCII.
pub proof fn lemma_decimal_ascii(n: nat)
    ensures
        ascii_bytes(decimal(n)),
{
    lemma_decimal(n);
    assert forall|i: int| 0 <= i < decimal(n).len() implies #[trigger] decimal(n)[i] < 128 by {
        assert(is_digit(decimal(n)[i]));
    }
}

/// The decimal spelling of `n` as a string, as `to_string` writes it.
pub fn decimal_string(n: u64) -> (r: String)
    ensures
        r@ == decimal_chars(n as nat),
{
    let digits = crate::decimal::format_u64(n);
    proof {
        lemma_decimal_ascii(n as nat);
    }
    ascii_string(digits.as_slice())
}

/// Appends the decimal spelling of `n`.
pub fn push_decimal(s: &mut String, n: u64)
    ensures
        final(s)@ == old(s)@ + decimal_chars(n as nat),
{
    let d = decimal_string(n);
    s.append(d.as_str());
}

/// No carriage return is directly followed by a line feed.
pub open spec fn no_crlf_chars(s: Seq<char>) -> bool {
    forall|i: int| 0 <= i < s.len() - 1 ==> !(#[trigger] s[i] == '\r' && s[i + 1] == '\n')
}

/// No byte 13 is directly followed by a byte 10.
pub open spec fn no_crlf_bytes(s: Seq<u8>) -> bool {
    forall|i: int| 0 <= i < s.len() - 1 ==> !(#[trigger] s[i] == 13 && s[i + 1] == 10)
}

/// In UTF-8, the bytes 13 and 10 stand only for the characters `\r` and `\n`.
proof fn lemma_encode_scalar_line_bytes(c: char)
    ensures
        encode_scalar(c as u32).len() >= 1,
        encode_scalar(c as u32)[0] == 10 ==> c == '\n',
        encode_scalar(c as u32).last() == 13 ==> c == '\r',
        encode_scalar(c as u32).len() == 1 ==> encode_scalar(c as u32)[0] == c as u32,
        forall|j: int|
            1 <= j < encode_scalar(c as u32).len() ==> #[trigger] encode_scalar(c as u32)[j]
                >= 0x80,
{
    let v = c as u32;
    char_is_scalar(c);
    if has_width_1_encoding(v) {
        assert(leading_byte_width_1(v) == v) by (bit_vector)
            requires
                v <= 0x7f,
        ;
        assert(v == 10 ==> c == '\n');
        assert(v == 13 ==> c == '\r');
    } else {
        assert(last_continuation_byte(v) >= 0x80) by (bit_vector);
        assert(second_last_continuation_byte(v) >= 0x80) by (bit_vector);
        assert(third_last_continuation_byte(v) >= 0x80) by (bit_vector);
        assert(leading_byte_width_2(v) >= 0x80) by (bit_vector);
        assert(leading_byte_width_3(v) >= 0x80) by (bit_vector);
        assert(leading_byte_width_4(v) >= 0x80) by (bit_vector);
    }
}

/// A text without a `\r\n` pair encodes to bytes without a 13, 10 pair, and
/// its encoding starts with 10 only when the text starts with `\n`.
pub proof fn lemma_no_crlf_encode(s: Seq<char>)
    requires
        no_crlf_chars(s),
    ensures
        no_crlf_bytes(encode_utf8(s)),
        encode_utf8(s).len() > 0 && encode_utf8(s)[0] == 10 ==> s.len() > 0 && s[0] == '\n',
    decreases s.len(),
{
    if s.len() > 0 {
        let rest = s.drop_first();
        assert(no_crlf_chars(rest)) by {
            assert forall|i: int| 0 <= i < rest.len() - 1 implies !(#[trigger] rest[i] == '\r'
                && rest[i + 1] == '\n') by {
                assert(rest[i] == s[i + 1] && rest[i + 1] == s[i + 2]);
            }
        }
        lemma_no_crlf_encode(rest);
        lemma_encode_scalar_line_bytes(s[0]);
        let head = encode_scalar(s[0] as u32);
        let tail = encode_utf8(rest);
        let all = encode_utf8(s);
        assert(all == head + tail);
        assert forall|i: int| 0 <= i < all.len() - 1 implies !(#[trigger] all[i] == 13 && all[i
            + 1] == 10) by {
            if i < head.len() - 1 {
                assert(all[i + 1] == head[i + 1]);
            } else if i == head.len() - 1 {
                if all[i] == 13 && all[i + 1] == 10 {
                    assert(head.last() == 13);
                    assert(tail[0] == 10);
                    assert(rest[0] == '\n');
                    assert(s[1] == '\n');
                    assert(s[0] == '\r');
                }
            } else {
                assert(all[i] == tail[i - head.len()]);
                assert(all[i + 1] == tail[i + 1 - head.len()]);
            }
        }
    }
}

/// The UTF-8 encoding of a concatenation is the concatenation of the encodings.
pub proof fn lemma_encode_utf8_concat(a: Seq<char>, b: Seq<char>)
    ensures
        encode_utf8(a + b) == encode_utf8(a) + encode_utf8(b),
    decreases a.len(),
{
    if a.len() == 0 {
        assert(a + b =~= b);
    } else {
        lemma_encode_utf8_concat(a.drop_first(), b);
        assert((a + b).drop_first() =~= a.drop_first() + b);
        assert((a + b)[0] == a[0]);
        assert(encode_scalar(a[0] as u32) + (encode_utf8(a.drop_first()) + encode_utf8(b))
            =~= (encode_scalar(a[0] as u32) + encode_utf8(a.drop_first())) + encode_utf8(b));
    }
}

/// The first position at or after `i` that holds the byte `x`.
pub open spec fn find_byte(s: Seq<u8>, x: u8, i: int) -> Option<int>
    decreases s.len() - i,
{
    if i < 0 || i >= s.len() {
        None
    } else if s[i] == x {
        Some(i)
    } else {
        find_byte(s, x, i + 1)
    }
}

/// What `find_byte` finds: the first `x` at or after `i`, or none at all.
pub proof fn lemma_find_byte(s: Seq<u8>, x: u8, i: int)
    requires
        0 <= i,
    ensures
        find_byte(s, x, i) matches Some(p) ==> i <= p < s.len() && s[p] == x && forall|j: int|
            i <= j < p ==> #[trigger] s[j] != x,
        find_byte(s, x, i) is None ==> forall|j: int| i <= j < s.len() ==> #[trigger] s[j] != x,
    decreases s.len() - i,
{
    if i < s.len() && s[i] != x {
        lemma_find_byte(s, x, i + 1);
    }
}

/// `find_byte` gives the first `x` at or after `i`.
pub proof fn lemma_find_byte_is(s: Seq<u8>, x: u8, i: int, p: int)
    requires
        0 <= i <= p < s.len(),
        s[p] == x,
        forall|j: int| i <= j < p ==> #[trigger] s[j] != x,
    ensures
        find_byte(s, x, i) == Some(p),
    decreases p - i,
{
    if i < p {
        assert(s[i] != x);
        lemma_find_byte_is(s, x, i + 1, p);
    }
}

/// `find_byte` finds nothing when no `x` stands at or after `i`.
pub proof fn lemma_find_byte_none(s: Seq<u8>, x: u8, i: int)
    requires
        0 <= i,
        forall|j: int| i <= j < s.len() ==> #[trigger] s[j] != x,
    ensures
        find_byte(s, x, i) is None,
    decreases s.len() - i,
{
    if i < s.len() {
        lemma_find_byte_none(s, x, i + 1);
    }
}

/// The position of the first `x` at or after `i`.
pub fn find_byte_exec(s: &[u8], x: u8, i: usize) -> (r: Option<usize>)
    ensures
        r matches Some(p) ==> find_byte(s@, x, i as int) == Some(p as int),
        r is None ==> find_byte(s@, x, i as int) is None,
{
    let mut j = i;
    while j < s.len()
        invariant
            i <= j,
            find_byte(s@, x, i as int) == find_byte(s@, x, j as int),
        decreases s@.len() - j,
    {
        if s[j] == x {
            return Some(j);
        }
        j += 1;
    }
    None
}

/// The text of `s` before byte `p` and after it, where `p` holds an ASCII byte.
pub fn split_around<'a>(s: &'a str, p: usize) -> (r: (&'a str, &'a str))
    requires
        p < s.spec_bytes().len(),
        s.spec_bytes()[p as int] < 128,
    ensures
        r.0.spec_bytes() == s.spec_bytes().subrange(0, p as int),
        r.1.spec_bytes() == s.spec_bytes().subrange(p + 1, s.spec_bytes().len() as int),
{
    let ghost b = s.spec_bytes();
    proof {
        is_char_boundary_iff_not_is_continuation_byte(b, p as int);
    }
    let (left, right) = s.split_at(p);
    let ghost rb = right.spec_bytes();
    proof {
        assert(rb.len() >= 1 && rb[0] == b[p as int]);
        assert(valid_utf8(rb));
        assert(is_leading_byte_width_1(rb[0]));
        assert(length_of_first_scalar(rb) == 1);
        assert(valid_utf8(pop_first_scalar(rb)));
        assert(is_char_boundary(pop_first_scalar(rb), 0));
        assert(is_char_boundary(rb, 1));
    }
    let (_, rest) = right.split_at(1);
    proof {
        assert(rest.spec_bytes() =~= b.subrange(p + 1, b.len() as int));
    }
    (left, rest)
}

/// Two texts are equal exactly when their encodings are.
pub fn str_eq(a: &str, b: &str) -> (r: bool)
    ensures
        r == (a@ == b@),
{
    let x = a.as_bytes();
    let y = b.as_bytes();
    proof {
        encode_utf8_decode_utf8(a@);
        encode_utf8_decode_utf8(b@);
    }
    if x.len() != y.len() {
        return false;
    }
    let mut i: usize = 0;
    while i < x.len()
        invariant
            x@.len() == y@.len(),
            x@ == encode_utf8(a@),
            y@ == encode_utf8(b@),
            i <= x@.len(),
            forall|k: int| 0 <= k < i ==> x@[k] == y@[k],
        decreases x@.len() - i,
    {
        if x[i] != y[i] {
            return false;
        }
        i += 1;
    }
    assert(x@ =~= y@);
    true
}

/// A character that `char::is_whitespace` accepts: Unicode's `White_Space`.
pub open spec fn is_whitespace(c: char) -> bool {
    ||| '\t' <= c <= '\r'
    ||| c == ' '
    ||| c == '\u{85}'
    ||| c == '\u{a0}'
    ||| c == '\u{1680}'
    ||| '\u{2000}' <= c <= '\u{200a}'
    ||| c == '\u{2028}'
    ||| c == '\u{2029}'
    ||| c == '\u{202f}'
    ||| c == '\u{205f}'
    ||| c == '\u{3000}'
}

/// `s` without its leading whitespace.
pub open spec fn trim_start(s: Seq<char>) -> Seq<char>
    decreases s.len(),
{
    if s.len() > 0 && is_whitespace(s[0]) {
        trim_start(s.drop_first())
    } else {
        s
    }
}

/// `s` without its trailing whitespace.
pub open spec fn trim_end(s: Seq<char>) -> Seq<char>
    decreases s.len(),
{
    if s.len() > 0 && is_whitespace(s.last()) {
        trim_end(s.drop_last())
    } else {
        s
    }
}

/// `s` without leading or trailing whitespace.
pub open spec fn trim(s: Seq<char>) -> Seq<char> {
    trim_end(trim_start(s))
}

/// `str::trim`: the contract claims the result is `s` with all leading and
/// all trailing whitespace (`char::is_whitespace`) removed.
#[verifier::external_body]
pub(crate) fn str_trim(s: &str) -> (r: &str)
    ensures
        r@ == trim(s@),
{
    s.trim()
}

/// `to_lowercase` of a text: what Unicode's lower-case mapping makes of it.
pub uninterp spec fn lowercase(s: Seq<char>) -> Seq<char>;

/// ASCII letters made lower case, every other character kept.
pub open spec fn ascii_lowercase(s: Seq<char>) -> Seq<char> {
    s.map_values(|c: char| if 'A' <= c <= 'Z' { ((c as u32) + 32) as char } else { c })
}

/// `str::to_lowercase`: the contract names the result `lowercase(s)` and
/// claims that on ASCII text it lowers `A`..`Z` and keeps everything else, as
/// the documentation's ASCII cases show. What it does beyond ASCII (the full
/// Unicode mapping) is left unsaid.
#[verifier::external_body]
pub(crate) fn str_to_lowercase(s: &str) -> (r: String)
    ensures
        r@ == lowercase(s@),
        is_ascii_chars(s@) ==> r@ == ascii_lowercase(s@),
{
    s.to_lowercase()
}

/// A text without `\n` encodes to bytes without 10.
pub proof fn lemma_no_newline_encode(s: Seq<char>)
    requires
        forall|i: int| 0 <= i < s.len() ==> #[trigger] s[i] != '\n',
    ensures
        forall|j: int| 0 <= j < encode_utf8(s).len() ==> #[trigger] encode_utf8(s)[j] != 10,
    decreases s.len(),
{
    if s.len() > 0 {
        let rest = s.drop_first();
        assert forall|i: int| 0 <= i < rest.len() implies #[trigger] rest[i] != '\n' by {
            assert(rest[i] == s[i + 1]);
        }
        lemma_no_newline_encode(rest);
        lemma_encode_scalar_line_bytes(s[0]);
        let head = encode_scalar(s[0] as u32);
        let all = encode_utf8(s);
        assert(all == head + encode_utf8(rest));
        assert forall|j: int| 0 <= j < all.len() implies #[trigger] all[j] != 10 by {
            if j < head.len() {
                assert(all[j] == head[j]);
            } else {
                assert(all[j] == encode_utf8(rest)[j - head.len()]);
            }
        }
    }
}

/// A text that does not end with `\r` encodes to bytes that do not end with 13.
pub proof fn lemma_last_not_cr_encode(s: Seq<char>)
    requires
        s.len() > 0,
        s.last() != '\r',
    ensures
        encode_utf8(s).len() > 0,
        encode_utf8(s).last() != 13,
{
    let init = s.drop_last();
    assert(init + seq![s.last()] =~= s);
    lemma_encode_utf8_concat(init, seq![s.last()]);
    assert(seq![s.last()].drop_first() =~= Seq::<char>::empty());
    assert(encode_utf8(seq![s.last()]) =~= encode_scalar(s.last() as u32) + encode_utf8(Seq::<char>::empty()));
    lemma_encode_scalar_line_bytes(s.last());
}

/// A line without its final `\r`, if it has one.
pub open spec fn strip_cr(l: Seq<u8>) -> Seq<u8> {
    if l.len() > 0 && l.last() == 13 {
        l.drop_last()
    } else {
        l
    }
}

/// The lines of a text as `str::lines` gives them: split at each `\n`, a
/// `\r` just before it dropped, and no empty line after a final `\n`.
pub open spec fn split_lines(b: Seq<u8>) -> Seq<Seq<u8>>
    decreases b.len(),
{
    if b.len() == 0 {
        Seq::empty()
    } else {
        match find_byte(b, 10, 0) {
            None => seq![b],
            Some(p) => if 0 <= p < b.len() {
                seq![strip_cr(b.take(p))] + split_lines(b.skip(p + 1))
            } else {
                seq![b]
            },
        }
    }
}

/// One step of `split_lines`: the first line, then the lines after its `\n`.
pub proof fn lemma_split_lines_step(b: Seq<u8>, p: int)
    requires
        find_byte(b, 10, 0) == Some(p),
    ensures
        0 <= p < b.len(),
        split_lines(b) == seq![strip_cr(b.take(p))] + split_lines(b.skip(p + 1)),
{
    lemma_find_byte(b, 10, 0);
}

/// The lines of `s`, as `str::lines` gives them.
pub fn lines<'a>(s: &'a str) -> (r: Vec<&'a str>)
    ensures
        r@.len() == split_lines(s.spec_bytes()).len(),
        forall|i: int| 0 <= i < r@.len() ==> #[trigger] r@[i].spec_bytes() == split_lines(s.spec_bytes())[i],
{
    let ghost all = split_lines(s.spec_bytes());
    let mut out: Vec<&'a str> = Vec::new();
    let mut rest: &'a str = s;
    while rest.as_bytes().len() > 0
        invariant
            all == split_lines(s.spec_bytes()),
            all == out@.map_values(|x: &str| x.spec_bytes()) + split_lines(rest.spec_bytes()),
        decreases rest.spec_bytes().len(),
    {
        let bytes = rest.as_bytes();
        let ghost rb = rest.spec_bytes();
        let ghost before = out@.map_values(|x: &str| x.spec_bytes());
        let (line, next) = match find_byte_exec(bytes, 10u8, 0) {
            Some(p) => {
                proof {
                    lemma_split_lines_step(rb, p as int);
                    lemma_find_byte(rb, 10u8, 0);
                }
                let (a, b) = split_around(rest, p);
                proof {
                    assert(a.spec_bytes() =~= rb.take(p as int));
                    assert(b.spec_bytes() =~= rb.skip(p + 1));
                }
                let ab = a.as_bytes();
                if ab.len() > 0 && ab[ab.len() - 1] == 13u8 {
                    let (l, _) = split_around(a, ab.len() - 1);
                    proof {
                        assert(l.spec_bytes() =~= a.spec_bytes().drop_last());
                    }
                    (l, b)
                } else {
                    (a, b)
                }
            },
            None => {
                let (a, b) = rest.split_at(bytes.len());
                proof {
                    assert(a.spec_bytes() =~= rb);
                    assert(b.spec_bytes() =~= Seq::<u8>::empty());
                    assert(split_lines(rb) == seq![rb]);
                    assert(split_lines(b.spec_bytes()) == Seq::<Seq<u8>>::empty());
                    assert(seq![rb] + Seq::<Seq<u8>>::empty() =~= seq![rb]);
                }
                (a, b)
            },
        };
        assert(split_lines(rb) == seq![line.spec_bytes()] + split_lines(next.spec_bytes()));
        out.push(line);
        proof {
            assert(out@.map_values(|x: &str| x.spec_bytes()) =~= before.push(line.spec_bytes()));
            assert(before + (seq![line.spec_bytes()] + split_lines(next.spec_bytes())) =~= before.push(
                line.spec_bytes(),
            ) + split_lines(next.spec_bytes()));
        }
        rest = next;
    }
    proof {
        assert(split_lines(rest.spec_bytes()) == Seq::<Seq<u8>>::empty());
        assert(all =~= out@.map_values(|x: &str| x.spec_bytes()));
    }
    out
}

} // verus!
