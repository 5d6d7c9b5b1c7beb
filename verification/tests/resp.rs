use systems_programming::resp::decoder::{Decoder, COMPACT_AT};
use systems_programming::resp::encoder::{encode, encode_command};
use systems_programming::resp::error::Error;
use systems_programming::resp::frame::Frame;
use systems_programming::resp::parser::parse;
use systems_programming::resp::server::{reply_to, Reply};

#[test]
fn decoder_reassembles_frames_split_across_chunks() {
    let mut d = Decoder::default();

    d.feed(b"+OK\r\n+PA");
    assert_eq!(
        d.next_frame().unwrap(),
        Some(Frame::SimpleString("OK".into()))
    );
    assert_eq!(d.next_frame().unwrap(), None);

    d.feed(b"RTIAL\r\n");
    assert_eq!(
        d.next_frame().unwrap(),
        Some(Frame::SimpleString("PARTIAL".into()))
    );
    assert_eq!(d.next_frame().unwrap(), None);

    d.feed(b"?huh\r\n");
    assert_eq!(d.next_frame(), Err(Error::UnknownType(b'?')));
}

#[test]
fn decoder_compacts_consumed_bytes() {
    let mut d = Decoder::default();
    for _ in 0..1000 {
        d.feed(b"+OK\r\n");
    }

    let mut frames = 0;
    while d.next_frame().unwrap().is_some() {
        frames += 1;
    }

    assert_eq!(frames, 1000);
    assert!(d.buffered_len() < COMPACT_AT, "retained {} bytes", d.buffered_len());
}

#[test]
fn encodes_a_command_as_an_array_of_bulk_strings() {
    assert_eq!(
        encode_command(&[&b"GET"[..], b"foo"]),
        b"*2\r\n$3\r\nGET\r\n$3\r\nfoo\r\n".to_vec()
    );
    assert_eq!(encode_command(&[]), b"*0\r\n".to_vec());
    assert_eq!(
        encode_command(&[&b"SET"[..], b"k", &[0xff, 0x00, b'\n']]),
        b"*3\r\n$3\r\nSET\r\n$1\r\nk\r\n$3\r\n\xff\x00\n\r\n".to_vec()
    );
}

#[test]
fn a_command_round_trips_back_into_bulk_string_frames() {
    let bytes = encode_command(&[&b"SET"[..], b"key", b"a\r\nb"]);

    assert_eq!(
        parse(&bytes).unwrap(),
        Some((
            Frame::Array(vec![
                Frame::BulkString(b"SET".to_vec()),
                Frame::BulkString(b"key".to_vec()),
                Frame::BulkString(b"a\r\nb".to_vec()),
            ]),
            bytes.len()
        ))
    );
}

#[test]
fn every_reply_frame_round_trips_through_the_parser() {
    let frames = [
        Frame::SimpleString("OK".into()),
        Frame::Error("ERR unknown command".into()),
        Frame::Integer(-42),
        Frame::Null,
        Frame::BulkString(vec![0xff, 0xfe, 0xfd]),
        Frame::Array(vec![
            Frame::Integer(1),
            Frame::BulkString(b"hello".to_vec()),
            Frame::Array(vec![Frame::Null]),
        ]),
    ];

    for frame in frames {
        let bytes = encode(&frame);
        assert_eq!(parse(&bytes).unwrap(), Some((frame, bytes.len())));
    }
}

#[test]
fn errors_format_for_humans() {
    assert_eq!(
        Error::UnknownType(b'?').to_string(),
        "unknown frame type byte 0x3f"
    );
    assert_eq!(Error::InvalidUtf8.to_string(), "not valid UTF-8");
}

#[test]
fn parses_simple_frames() {
    assert_eq!(
        parse(b"+OK\r\n").unwrap(),
        Some((Frame::SimpleString("OK".into()), 5))
    );
    assert_eq!(
        parse(b"+\r\n").unwrap(),
        Some((Frame::SimpleString("".into()), 3))
    );
    assert_eq!(
        parse(b"-ERR unknown\r\n").unwrap(),
        Some((Frame::Error("ERR unknown".into()), 14))
    );
    assert_eq!(parse(b":42\r\n").unwrap(), Some((Frame::Integer(42), 5)));
    assert_eq!(parse(b":-1\r\n").unwrap(), Some((Frame::Integer(-1), 5)));

    let (frame, n) = parse(b"+FIRST\r\n+SECOND\r\n").unwrap().unwrap();
    assert_eq!((frame, n), (Frame::SimpleString("FIRST".into()), 8));
    assert_eq!(
        parse(&b"+FIRST\r\n+SECOND\r\n"[n..]).unwrap(),
        Some((Frame::SimpleString("SECOND".into()), 9))
    );
}

#[test]
fn parses_aggregate_frames() {
    let bulk = |s: &str| Frame::BulkString(s.as_bytes().to_vec());

    assert_eq!(
        parse(b"$5\r\nhello\r\n").unwrap(),
        Some((bulk("hello"), 11))
    );
    assert_eq!(parse(b"$0\r\n\r\n").unwrap(), Some((bulk(""), 6)));
    assert_eq!(parse(b"$-1\r\n").unwrap(), Some((Frame::Null, 5)));
    assert_eq!(parse(b"*0\r\n").unwrap(), Some((Frame::Array(vec![]), 4)));
    assert_eq!(
        parse(b"*2\r\n$5\r\nhello\r\n$5\r\nworld\r\n").unwrap(),
        Some((Frame::Array(vec![bulk("hello"), bulk("world")]), 26))
    );
    assert_eq!(
        parse(b"*5\r\n:1\r\n:2\r\n:3\r\n:4\r\n$5\r\nhello\r\n").unwrap(),
        Some((
            Frame::Array(vec![
                Frame::Integer(1),
                Frame::Integer(2),
                Frame::Integer(3),
                Frame::Integer(4),
                bulk("hello"),
            ]),
            31
        ))
    );

    // a payload is bytes, not text
    assert_eq!(
        parse(b"$3\r\n\xff\xfe\xfd\r\n").unwrap(),
        Some((Frame::BulkString(vec![0xff, 0xfe, 0xfd]), 9))
    );

    // every byte short of a whole frame is incomplete, never a partial frame
    let full = b"*2\r\n$5\r\nhello\r\n$5\r\nworld\r\n";
    for n in 0..full.len() {
        assert_eq!(parse(&full[..n]).unwrap(), None, "{n}");
    }
}

#[test]
fn incomplete_waits_and_invalid_rejects() {
    for partial in [&b""[..], b"+", b"+OK", b"+OK\r", b":42"] {
        assert_eq!(parse(partial).unwrap(), None, "{partial:?}");
    }

    assert_eq!(parse(b"+\xff\xfe\r\n"), Err(Error::InvalidUtf8));
    assert_eq!(parse(b":4x2\r\n"), Err(Error::InvalidInteger));
    assert_eq!(parse(b"?huh\r\n"), Err(Error::UnknownType(b'?')));
    // the length lies: the byte after the payload is not the terminator
    assert_eq!(parse(b"$1\r\nabc\r\n"), Err(Error::MissingCrlf));
    assert_eq!(
        parse(b"$999999999999\r\n"),
        Err(Error::LengthTooLarge(999_999_999_999))
    );
}

// Further cases: edge values, every error, each law on concrete values.

#[test]
fn every_error_has_its_message() {
    assert_eq!(Error::InvalidInteger.to_string(), "not a valid integer");
    assert_eq!(
        Error::LengthTooLarge(600_000_000).to_string(),
        "declared length 600000000 exceeds 536870912"
    );
    assert_eq!(Error::MissingCrlf.to_string(), "expected a CRLF terminator");
    assert_eq!(Error::UnknownType(0xab).to_string(), "unknown frame type byte 0xab");
}

#[test]
fn array_length_errors() {
    assert_eq!(parse(b"*x\r\n"), Err(Error::InvalidInteger));
    assert_eq!(parse(b"*2\r\n:1\r\n"), Ok(None));
    assert_eq!(parse(b"$-2\r\n"), Err(Error::InvalidInteger));
    assert_eq!(parse(b":9223372036854775808\r\n"), Err(Error::InvalidInteger));
    assert_eq!(
        parse(b":-9223372036854775808\r\n").unwrap(),
        Some((Frame::Integer(i64::MIN), 23))
    );
}

#[test]
fn largest_bulk_length_is_accepted_as_incomplete() {
    assert_eq!(parse(b"$536870912\r\n"), Ok(None));
    assert_eq!(
        parse(b"$536870913\r\n"),
        Err(Error::LengthTooLarge(536_870_913))
    );
}

#[test]
fn encoder_writes_each_kind() {
    assert_eq!(encode(&Frame::Integer(-42)), b":-42\r\n".to_vec());
    assert_eq!(encode(&Frame::Null), b"$-1\r\n".to_vec());
    assert_eq!(encode(&Frame::Error("ERR x".into())), b"-ERR x\r\n".to_vec());
    assert_eq!(encode(&Frame::Array(vec![])), b"*0\r\n".to_vec());
}

#[test]
fn decoder_reports_errors_and_waits() {
    let mut d = Decoder::new();
    assert_eq!(d.next_frame(), Ok(None));
    d.feed(b":1");
    assert_eq!(d.next_frame(), Ok(None));
    d.feed(b"2\r\n");
    assert_eq!(d.next_frame(), Ok(Some(Frame::Integer(12))));
    // consumed bytes stay until enough have piled up to be worth dropping
    assert_eq!(d.buffered_len(), 5);
    assert_eq!(d.next_frame(), Ok(None));
}

#[test]
fn server_answers_ok_waits_or_closes() {
    assert_eq!(
        reply_to(&Ok(Some(Frame::Integer(1)))),
        Reply::Answer(b"+OK\r\n".to_vec())
    );
    assert_eq!(reply_to(&Ok(None)), Reply::NeedMore);
    assert_eq!(
        reply_to(&Err(Error::UnknownType(b'?'))),
        Reply::AnswerAndClose(b"-ERR protocol error: unknown frame type byte 0x3f\r\n".to_vec())
    );
}

#[test]
fn other_spellings_are_incomplete_until_whole() {
    for full in [&b"*-1\r\n"[..], b":+5\r\n", b"$05\r\nhello\r\n", b"*1\r\n:007\r\n"] {
        let (_, n) = parse(full).unwrap().unwrap();
        assert_eq!(n, full.len());
        for k in 0..n {
            assert_eq!(parse(&full[..k]), Ok(None), "{k}");
        }
    }
    assert_eq!(parse(b"*-1\r\n"), Ok(Some((Frame::Null, 5))));
    assert_eq!(parse(b":+5\r\n"), Ok(Some((Frame::Integer(5), 5))));
}

#[test]
fn a_read_never_looks_past_its_frame() {
    let first = b"$05\r\nhello\r\n";
    let (_, n) = parse(first).unwrap().unwrap();
    for tail in [&b""[..], b"?garbage", b"\r\n", b"+OK\r\n"] {
        let mut bytes = first[..n].to_vec();
        bytes.extend_from_slice(tail);
        assert_eq!(parse(&bytes), Ok(Some((Frame::BulkString(b"hello".to_vec()), n))));
    }
}
