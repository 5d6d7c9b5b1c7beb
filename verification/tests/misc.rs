use systems_programming::chunked_sum::{checked_sum, chunk_len, chunk_ranges};
use systems_programming::diff::{compare_files, Line, Outcome};
use systems_programming::message::{assemble, field_of, Field, Fields, Message, MessageError};
use systems_programming::progress::{console_command, help_text, progress_line, ConsoleCommand};

fn chunked(vals: &[u64]) -> u64 {
    let partials: Vec<u64> = chunk_ranges(vals.len())
        .into_iter()
        .map(|(a, b)| checked_sum(&vals[a..b]).unwrap())
        .collect();
    checked_sum(&partials).unwrap()
}

#[test]
fn sums_match_serial() {
    for n in [0usize, 1, 7, 8, 9, 100_000] {
        let v: Vec<u64> = (0..n as u64).collect();
        assert_eq!(chunked(&v), v.iter().sum::<u64>(), "n={n}");
    }
}

#[test]
fn chunk_lengths() {
    assert_eq!(chunk_len(0), 1);
    assert_eq!(chunk_len(1), 1);
    assert_eq!(chunk_len(8), 1);
    assert_eq!(chunk_len(9), 2);
    assert_eq!(chunk_len(100_000), 12_500);
    assert_eq!(chunk_ranges(0), vec![]);
    assert_eq!(chunk_ranges(9), vec![(0, 2), (2, 4), (4, 6), (6, 8), (8, 9)]);
    assert_eq!(chunk_ranges(3), vec![(0, 1), (1, 2), (2, 3)]);
}

#[test]
fn checked_sum_reports_overflow() {
    assert_eq!(checked_sum(&[u64::MAX, 0]), Some(u64::MAX));
    assert_eq!(checked_sum(&[u64::MAX, 1]), None);
    assert_eq!(checked_sum(&[]), Some(0));
}

#[test]
fn diff_reports_each_position() {
    let (lines, outcome) = compare_files("a\nb\nc\n", "a\nx\n");
    assert_eq!(lines, vec![Line::Same(0), Line::Changed(1), Line::Removed(2)]);
    assert_eq!(outcome, Outcome::Changed);

    let (lines, outcome) = compare_files("a\r\nb", "a\nb\n");
    assert_eq!(lines, vec![Line::Same(0), Line::Same(1)]);
    assert_eq!(outcome, Outcome::Same);

    let (lines, outcome) = compare_files("", "new\n");
    assert_eq!(lines, vec![Line::Added(0)]);
    assert_eq!(outcome, Outcome::Changed);
}

fn fields() -> Fields {
    Fields {
        tag: None,
        id: None,
        method: None,
        length: None,
        result_bits: None,
    }
}

#[test]
fn keys_name_their_fields() {
    assert_eq!(field_of("type"), Field::Type);
    assert_eq!(field_of("id"), Field::Id);
    assert_eq!(field_of("method"), Field::Method);
    assert_eq!(field_of("length"), Field::Length);
    assert_eq!(field_of("result"), Field::Result);
    assert_eq!(field_of("extra"), Field::Other);
}

#[test]
fn a_request_needs_id_method_and_length() {
    let mut f = fields();
    f.tag = Some("Request".into());
    f.id = Some("1".into());
    f.method = Some("ping".into());
    f.length = Some(4);
    assert_eq!(
        assemble(f),
        Ok(Message::Request {
            id: "1".into(),
            method: "ping".into(),
            length: 4
        })
    );

    let mut f = fields();
    f.tag = Some("Request".into());
    f.id = Some("1".into());
    assert_eq!(assemble(f), Err(MessageError::MissingField("method".into())));
}

#[test]
fn a_response_needs_id_and_result() {
    let mut f = fields();
    f.tag = Some("Response".into());
    f.id = Some("1".into());
    f.result_bits = Some(1.5f64.to_bits());
    assert_eq!(
        assemble(f),
        Ok(Message::Response {
            id: "1".into(),
            result_bits: 1.5f64.to_bits()
        })
    );

    let mut f = fields();
    f.tag = Some("Response".into());
    f.result_bits = Some(0);
    assert_eq!(assemble(f), Err(MessageError::MissingField("id".into())));
}

#[test]
fn tag_must_name_a_kind() {
    let mut f = fields();
    f.tag = Some("Notify".into());
    f.id = Some("1".into());
    assert_eq!(assemble(f), Err(MessageError::UnknownVariant("Notify".into())));

    let mut f = fields();
    f.id = Some("1".into());
    assert_eq!(assemble(f), Err(MessageError::MissingField("type".into())));
}

#[test]
fn progress_and_console() {
    assert_eq!(progress_line(7), Some("working.. 7/100 done".to_string()));
    assert_eq!(progress_line(0), Some("working.. 0/100 done".to_string()));
    assert_eq!(progress_line(100), None);
    assert_eq!(console_command("help"), ConsoleCommand::Help);
    assert_eq!(console_command("stop"), ConsoleCommand::Stop);
    assert_eq!(console_command("stop "), ConsoleCommand::Unknown);
    assert_eq!(help_text(), "commands: help, stop");
}
