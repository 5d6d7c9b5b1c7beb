//! Decimal text for integers: the digits that `to_string` writes and the
//! grammar that `str::parse` accepts, over raw bytes.
use vstd::prelude::*;
use vstd::slice::*;

verus! {

/// An ASCII decimal digit.
pub open spec fn is_digit(b: u8) -> bool {
    48 <= b <= 57
}

/// Every byte of `s` is an ASCII decimal digit.
pub open spec fn all_digits(s: Seq<u8>) -> bool {
    forall|i: int| 0 <= i < s.len() ==> is_digit(#[trigger] s[i])
}

/// The number that a run of decimal digits spells, most significant first.
pub open spec fn digits_value(s: Seq<u8>) -> nat
    decreases s.len(),
{
    if s.len() == 0 {
        0
    } else {
        digits_value(s.drop_last()) * 10 + (s.last() - 48) as nat
    }
}

/// The shortest decimal spelling of `n`, as `to_string` writes it.
pub open spec fn decimal(n: nat) -> Seq<u8>
    decreases n,
{
    if n < 10 {
        seq![(48 + n) as u8]
    } else {
        decimal(n / 10).push((48 + n % 10) as u8)
    }
}

/// The decimal spelling of a signed number: a `-` before the magnitude when negative.
pub open spec fn decimal_int(n: int) -> Seq<u8> {
    if n < 0 {
        seq![45u8] + decimal((-n) as nat)
    } else {
        decimal(n as nat)
    }
}

/// The same spelling as characters.
pub open spec fn decimal_chars(n: nat) -> Seq<char> {
    decimal(n).map_values(|b: u8| b as char)
}

/// What `str::parse` gives for an unsigned integer type whose largest value is
/// `max`: an optional `+`, then one or more digits whose value is at most `max`.
pub open spec fn parse_unsigned(s: Seq<u8>, max: nat) -> Option<nat> {
    let d = if s.len() > 0 && s[0] == 43 {
        s.drop_first()
    } else {
        s
    };
    if d.len() > 0 && all_digits(d) && digits_value(d) <= max {
        Some(digits_value(d))
    } else {
        None
    }
}

/// What `str::parse` gives for a signed integer type with range `[min, max]`:
/// an optional `+` or `-`, then one or more digits.
pub open spec fn parse_signed(s: Seq<u8>, min: int, max: nat) -> Option<int> {
    if s.len() > 0 && s[0] == 45 {
        let d = s.drop_first();
        if d.len() > 0 && all_digits(d) && min <= -digits_value(d) {
            Some(-digits_value(d))
        } else {
            None
        }
    } else {
        match parse_unsigned(s, max) {
            Some(v) => Some(v as int),
            None => None,
        }
    }
}

/// A prefix of a run of digits never spells more than the whole run.
pub proof fn lemma_digits_value_prefix(s: Seq<u8>, k: int)
    requires
        0 <= k <= s.len(),
        all_digits(s),
    ensures
        digits_value(s.take(k)) <= digits_value(s),
    decreases s.len(),
{
    if k < s.len() {
        assert(s.drop_last().take(k) =~= s.take(k));
        lemma_digits_value_prefix(s.drop_last(), k);
    } else {
        assert(s.take(k) =~= s);
    }
}

/// Appending one digit multiplies by ten and adds the digit.
pub proof fn lemma_digits_value_push(s: Seq<u8>, b: u8)
    ensures
        digits_value(s.push(b)) == digits_value(s) * 10 + (b - 48) as nat,
{
    assert(s.push(b).drop_last() =~= s);
}

/// The decimal spelling is a non-empty run of digits that spells `n`, and
/// only the spelling of zero starts with `0`.
pub proof fn lemma_decimal(n: nat)
    ensures
        decimal(n).len() > 0,
        all_digits(decimal(n)),
        digits_value(decimal(n)) == n,
        decimal(n)[0] != 43u8,
        decimal(n)[0] != 45u8,
    decreases n,
{
    if n >= 10 {
        lemma_decimal(n / 10);
        lemma_digits_value_push(decimal(n / 10), (48 + n % 10) as u8);
        assert(((48 + n % 10) as u8 - 48) as nat == n % 10);
        assert((n / 10) * 10 + n % 10 == n);
        assert(decimal(n)[0] == decimal(n / 10)[0]);
    } else {
        assert(decimal(n).drop_last() =~= Seq::<u8>::empty());
        assert(digits_value(Seq::<u8>::empty()) == 0);
        assert(decimal(n).last() == (48 + n) as u8);
    }
}

/// Reading back the spelling of `n` gives `n`.
pub proof fn lemma_parse_decimal(n: nat, max: nat)
    requires
        n <= max,
    ensures
        parse_unsigned(decimal(n), max) == Some(n),
{
    lemma_decimal(n);
}

/// Reading back the signed spelling of `n` gives `n`.
pub proof fn lemma_parse_decimal_int(n: int, min: int, max: nat)
    requires
        min <= n <= max,
    ensures
        parse_signed(decimal_int(n), min, max) == Some(n),
{
    if n < 0 {
        lemma_decimal((-n) as nat);
        assert((seq![45u8] + decimal((-n) as nat)).drop_first() =~= decimal((-n) as nat));
    } else {
        lemma_decimal(n as nat);
    }
}

/// The decimal spelling of `n`.
pub fn format_u64(n: u64) -> (r: Vec<u8>)
    ensures
        r@ == decimal(n as nat),
    decreases n,
{
    if n < 10 {
        let mut v = Vec::new();
        v.push(48 + n as u8);
        v
    } else {
        let mut v = format_u64(n / 10);
        v.push(48 + (n % 10) as u8);
        v
    }
}

/// The decimal spelling of `n`, with a leading `-` when negative.
pub fn format_i64(n: i64) -> (r: Vec<u8>)
    ensures
        r@ == decimal_int(n as int),
{
    if n < 0 {
        let magnitude: u64 = ((-(n + 1)) as u64) + 1;
        let digits = format_u64(magnitude);
        let mut v = Vec::new();
        v.push(45u8);
        let mut i: usize = 0;
        while i < digits.len()
            invariant
                i <= digits.len(),
                v@ == seq![45u8] + digits@.take(i as int),
            decreases digits.len() - i,
        {
            v.push(digits[i]);
            i += 1;
            assert(digits@.take(i as int) == digits@.take(i - 1).push(digits@[i - 1]));
        }
        assert(digits@.take(i as int) =~= digits@);
        v
    } else {
        format_u64(n as u64)
    }
}

/// Reads a run of at least one digit whose value is at most `max`.
fn parse_digits(d: &[u8], max: u64) -> (r: Option<u64>)
    ensures
        r is Some <==> (d@.len() > 0 && all_digits(d@) && digits_value(d@) <= max),
        r matches Some(v) ==> v == digits_value(d@),
{
    if d.len() == 0 {
        return None;
    }
    let mut acc: u64 = 0;
    let mut i: usize = 0;
    while i < d.len()
        invariant
            i <= d@.len(),
            all_digits(d@.take(i as int)),
            acc == digits_value(d@.take(i as int)),
            acc <= max,
        decreases d@.len() - i,
    {
        let b = d[i];
        assert(d@.take(i + 1) =~= d@.take(i as int).push(b));
        if b < 48 || b > 57 {
            assert(!is_digit(d@[i as int]));
            return None;
        }
        proof {
            lemma_digits_value_push(d@.take(i as int), b);
        }
        let digit = (b - 48) as u64;
        if digit > max || acc > (max - digit) / 10 {
            proof {
                if digit <= max {
                    assert(acc * 10 + digit > max) by (nonlinear_arith)
                        requires
                            acc > (max - digit) / 10,
                            digit <= max,
                    ;
                }
                assert(all_digits(d@.take(i + 1)));
                if all_digits(d@) {
                    lemma_digits_value_prefix(d@, i + 1);
                }
            }
            return None;
        }
        assert(acc * 10 + digit <= max) by (nonlinear_arith)
            requires
                acc <= (max - digit) / 10,
                digit <= max,
        ;
        acc = acc * 10 + digit;
        i += 1;
    }
    assert(d@.take(i as int) =~= d@);
    Some(acc)
}

/// `str::parse::<T>` for an unsigned `T` whose largest value is `max`.
pub fn parse_unsigned_bytes(s: &[u8], max: u64) -> (r: Option<u64>)
    ensures
        r matches Some(v) ==> parse_unsigned(s@, max as nat) == Some(v as nat),
        r is None ==> parse_unsigned(s@, max as nat) is None,
{
    if s.len() > 0 && s[0] == 43u8 {
        let rest = slice_subrange(s, 1, s.len());
        assert(rest@ =~= s@.drop_first());
        parse_digits(rest, max)
    } else {
        parse_digits(s, max)
    }
}

/// `str::parse::<i64>`.
pub fn parse_i64_bytes(s: &[u8]) -> (r: Option<i64>)
    ensures
        r matches Some(v) ==> parse_signed(s@, i64::MIN as int, i64::MAX as nat) == Some(
            v as int,
        ),
        r is None ==> parse_signed(s@, i64::MIN as int, i64::MAX as nat) is None,
{
    if s.len() > 0 && s[0] == 45u8 {
        let rest = slice_subrange(s, 1, s.len());
        assert(rest@ =~= s@.drop_first());
        match parse_digits(rest, 0x8000_0000_0000_0000u64) {
            Some(m) => {
                if m == 0x8000_0000_0000_0000u64 {
                    Some(i64::MIN)
                } else {
                    Some(-(m as i64))
                }
            },
            None => None,
        }
    } else {
        match parse_unsigned_bytes(s, i64::MAX as u64) {
            Some(v) => Some(v as i64),
            None => None,
        }
    }
}

} // verus!
