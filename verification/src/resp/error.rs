//! What can be wrong with bytes that claim to be RESP2.
use vstd::prelude::*;
use crate::decimal::{decimal, decimal_chars, is_digit, lemma_decimal};
use crate::resp::frame::no_line_breaks;
use crate::text::{ascii_string, push_decimal};

verus! {

/// The largest bulk-string length a frame may declare (512 MiB).
pub const MAX_BULK_LEN: usize = 536870912;

/// Why a byte stream is not RESP2.
#[derive(Debug, Clone, Copy, PartialEq, Eq, Structural)]
pub enum Error {
    UnknownType(u8),
    InvalidInteger,
    InvalidUtf8,
    LengthTooLarge(usize),
    MissingCrlf,
}

/// A lower-case hexadecimal digit.
pub open spec fn hex_digit(d: nat) -> char {
    if d < 10 {
        (48 + d) as char
    } else {
        (87 + d) as char
    }
}

/// The message that describes an error to a person.
pub open spec fn error_message(e: Error) -> Seq<char> {
    match e {
        Error::UnknownType(b) => "unknown frame type byte 0x"@ + seq![
            hex_digit((b / 16) as nat),
            hex_digit((b % 16) as nat),
        ],
        Error::InvalidInteger => "not a valid integer"@,
        Error::InvalidUtf8 => "not valid UTF-8"@,
        Error::LengthTooLarge(len) => "declared length "@ + decimal_chars(len as nat) + " exceeds "@
            + decimal_chars(MAX_BULK_LEN as nat),
        Error::MissingCrlf => "expected a CRLF terminator"@,
    }
}

fn hex_byte(d: u8) -> (c: u8)
    requires
        d < 16,
    ensures
        c as char == hex_digit(d as nat),
        c < 128,
{
    if d < 10 {
        48 + d
    } else {
        87 + d
    }
}

impl Error {
    /// The message that describes the error to a person.
    pub fn to_string(&self) -> (r: String)
        ensures
            r@ == error_message(*self),
    {
        match self {
            Error::UnknownType(b) => {
                let mut s = String::from_str("unknown frame type byte 0x");
                let mut digits: Vec<u8> = Vec::new();
                digits.push(hex_byte(*b / 16));
                digits.push(hex_byte(*b % 16));
                let pair = ascii_string(digits.as_slice());
                s.append(pair.as_str());
                assert(pair@ =~= seq![hex_digit((*b / 16) as nat), hex_digit((*b % 16) as nat)]);
                proof {
                    reveal_strlit("unknown frame type byte 0x");
                }
                s
            },
            Error::InvalidInteger => String::from_str("not a valid integer"),
            Error::InvalidUtf8 => String::from_str("not valid UTF-8"),
            Error::LengthTooLarge(len) => {
                let mut s = String::from_str("declared length ");
                push_decimal(&mut s, *len as u64);
                s.append(" exceeds ");
                push_decimal(&mut s, MAX_BULK_LEN as u64);
                s
            },
            Error::MissingCrlf => String::from_str("expected a CRLF terminator"),
        }
    }
}

/// The decimal spelling of a number holds digits only.
proof fn lemma_decimal_plain(n: nat)
    ensures
        no_line_breaks(decimal_chars(n)),
{
    lemma_decimal(n);
    assert forall|i: int| 0 <= i < decimal_chars(n).len() implies #[trigger] decimal_chars(n)[i]
        != '\r' && decimal_chars(n)[i] != '\n' by {
        assert(is_digit(decimal(n)[i]));
    }
}

/// No error message holds a line break, so it can travel in an error frame.
pub proof fn lemma_message_plain(e: Error)
    ensures
        no_line_breaks(error_message(e)),
{
    match e {
        Error::UnknownType(b) => {
            reveal_strlit("unknown frame type byte 0x");
            let m = error_message(e);
            assert forall|i: int| 0 <= i < m.len() implies #[trigger] m[i] != '\r' && m[i] != '\n' by {
                if i >= 26 {
                    assert(m[i] == hex_digit((b / 16) as nat) || m[i] == hex_digit((b % 16) as nat));
                }
            }
        },
        Error::InvalidInteger => {
            reveal_strlit("not a valid integer");
        },
        Error::InvalidUtf8 => {
            reveal_strlit("not valid UTF-8");
        },
        Error::LengthTooLarge(len) => {
            reveal_strlit("declared length ");
            reveal_strlit(" exceeds ");
            lemma_decimal_plain(len as nat);
            lemma_decimal_plain(MAX_BULK_LEN as nat);
            let a = "declared length "@ + decimal_chars(len as nat);
            let m = error_message(e);
            assert(m == a + " exceeds "@ + decimal_chars(MAX_BULK_LEN as nat));
            assert forall|i: int| 0 <= i < m.len() implies #[trigger] m[i] != '\r' && m[i] != '\n' by {
                if i < 16 {
                    assert(m[i] == "declared length "@[i]);
                } else if i < a.len() {
                    assert(m[i] == decimal_chars(len as nat)[i - 16]);
                } else if i < a.len() + 9 {
                    assert(m[i] == " exceeds "@[i - a.len()]);
                } else {
                    assert(m[i] == decimal_chars(MAX_BULK_LEN as nat)[i - a.len() - 9]);
                }
            }
        },
        Error::MissingCrlf => {
            reveal_strlit("expected a CRLF terminator");
        },
    }
}

} // verus!
