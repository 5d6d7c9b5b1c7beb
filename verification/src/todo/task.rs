//! A task, and its line format `id|status|deleted|title`. The title is the
//! last field and the line is split at most four ways, so a title may hold `|`.
use vstd::prelude::*;
use vstd::utf8::*;
use vstd::string::*;
use crate::decimal::{
    decimal,
    decimal_chars,
    is_digit,
    lemma_decimal,
    lemma_parse_decimal,
    parse_unsigned,
    parse_unsigned_bytes,
};
use crate::text::{
    ascii_bytes,
    ascii_chars,
    ascii_lowercase,
    find_byte,
    find_byte_exec,
    is_whitespace,
    lemma_ascii_utf8,
    lemma_encode_utf8_concat,
    lemma_find_byte_is,
    lowercase,
    push_decimal,
    split_around,
    str_eq,
    str_to_lowercase,
    str_trim,
    trim,
    trim_end,
    trim_start,
};

verus! {

broadcast use group_utf8_lib;

/// Whether a task is still to do.
#[derive(Debug, Clone, Copy, PartialEq, Eq, Structural)]
pub enum Status {
    Pending,
    Done,
}

/// One task.
#[derive(Debug, PartialEq)]
pub struct Task {
    pub id: u32,
    pub title: String,
    pub status: Status,
    pub deleted: bool,
}

/// The model of a task: its title as characters.
pub struct TaskV {
    pub id: u32,
    pub title: Seq<char>,
    pub status: Status,
    pub deleted: bool,
}

impl View for Task {
    type V = TaskV;

    open spec fn view(&self) -> TaskV {
        TaskV { id: self.id, title: self.title@, status: self.status, deleted: self.deleted }
    }
}

/// How a status is written in the file.
pub open spec fn status_word(s: Status) -> Seq<char> {
    match s {
        Status::Pending => "pending"@,
        Status::Done => "done"@,
    }
}

/// How `bool` is written (`Display` for `bool`).
pub open spec fn bool_word(b: bool) -> Seq<char> {
    if b {
        "true"@
    } else {
        "false"@
    }
}

/// The line that stands for a task: `id|status|deleted|title`.
pub open spec fn task_text(t: TaskV) -> Seq<char> {
    decimal_chars(t.id as nat) + "|"@ + status_word(t.status) + "|"@ + bool_word(t.deleted) + "|"@
        + t.title
}

/// What `Status::from_str` makes of a text: trimmed and lower-cased, it must
/// be `pending` or `done`.
pub open spec fn lowered(s: Seq<char>) -> Seq<char> {
    if is_ascii_chars(trim(s)) {
        ascii_lowercase(trim(s))
    } else {
        lowercase(trim(s))
    }
}

/// The status a text names, or the message that says it names none.
pub open spec fn status_from(s: Seq<char>) -> Result<Status, Seq<char>> {
    let c = lowered(s);
    if c == "pending"@ {
        Ok(Status::Pending)
    } else if c == "done"@ {
        Ok(Status::Done)
    } else {
        Err("'"@ + c + "' is not a valid status"@)
    }
}

/// What `bool::from_str` accepts: exactly `true` or `false`.
pub open spec fn bool_from(s: Seq<char>) -> Option<bool> {
    if s == "true"@ {
        Some(true)
    } else if s == "false"@ {
        Some(false)
    } else {
        None
    }
}

/// The bytes before the first `|` and the bytes after it.
pub open spec fn split_pipe(b: Seq<u8>) -> Option<(Seq<u8>, Seq<u8>)> {
    match find_byte(b, 124, 0) {
        Some(p) => Some((b.take(p), b.skip(p + 1))),
        None => None,
    }
}

/// The message for a line with too few fields.
pub open spec fn malformed(found: nat) -> Seq<char> {
    "Malformed task string. Expected 4 fields, found "@ + decimal_chars(found)
}

/// The task that four fields stand for, or the message that says why not.
pub open spec fn decode_fields(f0: Seq<u8>, f1: Seq<u8>, f2: Seq<u8>, f3: Seq<u8>) -> Result<
    TaskV,
    Seq<char>,
> {
    match parse_unsigned(f0, u32::MAX as nat) {
        None => Err("Invalid ID: "@ + decode_utf8(f0)),
        Some(id) => match status_from(decode_utf8(f1)) {
            Err(e) => Err("Invalid status: "@ + e),
            Ok(status) => match bool_from(decode_utf8(f2)) {
                None => Err("Invalid deleted value: "@ + decode_utf8(f2)),
                Some(deleted) => Ok(
                    TaskV { id: id as u32, title: decode_utf8(f3), status, deleted },
                ),
            },
        },
    }
}

/// The task that the UTF-8 bytes of a line stand for, or the message that
/// says why they stand for none.
pub open spec fn decode_task(b: Seq<u8>) -> Result<TaskV, Seq<char>> {
    match split_pipe(b) {
        None => Err(malformed(1)),
        Some((f0, r1)) => match split_pipe(r1) {
            None => Err(malformed(2)),
            Some((f1, r2)) => match split_pipe(r2) {
                None => Err(malformed(3)),
                Some((f2, f3)) => decode_fields(f0, f1, f2, f3),
            },
        },
    }
}

/// `s` before its first `|` and after it.
fn split_once_pipe<'a>(s: &'a str) -> (r: Option<(&'a str, &'a str)>)
    ensures
        match split_pipe(s.spec_bytes()) {
            None => r is None,
            Some((a, b)) => r matches Some((x, y)) && x.spec_bytes() == a && y.spec_bytes() == b,
        },
{
    let bytes = s.as_bytes();
    match find_byte_exec(bytes, 124u8, 0) {
        None => None,
        Some(p) => {
            proof {
                crate::text::lemma_find_byte(bytes@, 124u8, 0);
            }
            let (x, y) = split_around(s, p);
            proof {
                assert(s.spec_bytes().take(p as int) =~= s.spec_bytes().subrange(0, p as int));
                assert(s.spec_bytes().skip(p + 1) =~= s.spec_bytes().subrange(
                    p + 1,
                    s.spec_bytes().len() as int,
                ));
            }
            Some((x, y))
        },
    }
}

impl Status {
    /// The character shown in a task list's checkbox.
    pub fn checkbox_char(&self) -> (c: char)
        ensures
            c == (match *self {
                Status::Done => 'X',
                Status::Pending => ' ',
            }),
    {
        match self {
            Status::Done => 'X',
            Status::Pending => ' ',
        }
    }

    /// The status as it is written in the file.
    pub fn to_string(&self) -> (r: String)
        ensures
            r@ == status_word(*self),
    {
        match self {
            Status::Pending => String::from_str("pending"),
            Status::Done => String::from_str("done"),
        }
    }

    /// Reads a status: surrounding whitespace and letter case do not matter.
    pub fn decode(s: &str) -> (r: Result<Status, String>)
        ensures
            match status_from(s@) {
                Ok(st) => r == Ok::<Status, String>(st),
                Err(m) => r matches Err(e) && e@ == m,
            },
    {
        let cleaned = str_to_lowercase(str_trim(s));
        assert(cleaned@ == lowered(s@));
        if str_eq(cleaned.as_str(), "pending") {
            Ok(Status::Pending)
        } else if str_eq(cleaned.as_str(), "done") {
            Ok(Status::Done)
        } else {
            let mut e = String::from_str("'");
            e.append(cleaned.as_str());
            e.append("' is not a valid status");
            Err(e)
        }
    }
}

impl Task {
    /// A pending, live task; surrounding whitespace is trimmed from the title.
    pub fn new(id: u32, title: String) -> (t: Task)
        ensures
            t@ == (TaskV { id, title: trim(title@), status: Status::Pending, deleted: false }),
    {
        Task {
            id,
            title: String::from_str(str_trim(title.as_str())),
            status: Status::Pending,
            deleted: false,
        }
    }

    /// Replaces the title (as given: it is not trimmed).
    pub fn rename(&mut self, new_title: String)
        ensures
            final(self)@ == (TaskV { title: new_title@, ..old(self)@ }),
    {
        self.title = new_title;
    }

    /// Marks the task deleted; it stays in the file.
    pub fn delete(&mut self)
        ensures
            final(self)@ == (TaskV { deleted: true, ..old(self)@ }),
    {
        self.deleted = true;
    }

    /// Marks the task done.
    pub fn complete(&mut self)
        ensures
            final(self)@ == (TaskV { status: Status::Done, ..old(self)@ }),
    {
        self.status = Status::Done;
    }

    /// Moves the task back to pending.
    pub fn pend(&mut self)
        ensures
            final(self)@ == (TaskV { status: Status::Pending, ..old(self)@ }),
    {
        self.status = Status::Pending;
    }

    /// The task's line: `id|status|deleted|title`.
    pub fn to_string(&self) -> (r: String)
        ensures
            r@ == task_text(self@),
    {
        let mut s = String::new();
        push_decimal(&mut s, self.id as u64);
        s.append("|");
        let st = self.status.to_string();
        s.append(st.as_str());
        s.append("|");
        if self.deleted {
            s.append("true");
        } else {
            s.append("false");
        }
        s.append("|");
        s.append(self.title.as_str());
        assert(s@ =~= task_text(self@));
        s
    }

    /// Reads a task from its line, or says why the line is not one.
    pub fn decode(s: &str) -> (r: Result<Task, String>)
        ensures
            match decode_task(s.spec_bytes()) {
                Ok(t) => r matches Ok(task) && task@ == t,
                Err(m) => r matches Err(e) && e@ == m,
            },
    {
        let (f0, r1) = match split_once_pipe(s) {
            None => return Err(malformed_message(1)),
            Some(v) => v,
        };
        let (f1, r2) = match split_once_pipe(r1) {
            None => return Err(malformed_message(2)),
            Some(v) => v,
        };
        let (f2, f3) = match split_once_pipe(r2) {
            None => return Err(malformed_message(3)),
            Some(v) => v,
        };
        proof {
            encode_utf8_decode_utf8(f0@);
            encode_utf8_decode_utf8(f1@);
            encode_utf8_decode_utf8(f2@);
            encode_utf8_decode_utf8(f3@);
        }
        let id = match parse_unsigned_bytes(f0.as_bytes(), u32::MAX as u64) {
            None => {
                let mut e = String::from_str("Invalid ID: ");
                e.append(f0);
                return Err(e);
            },
            Some(v) => v as u32,
        };
        let status = match Status::decode(f1) {
            Err(m) => {
                let mut e = String::from_str("Invalid status: ");
                e.append(m.as_str());
                return Err(e);
            },
            Ok(st) => st,
        };
        let deleted = if str_eq(f2, "true") {
            true
        } else if str_eq(f2, "false") {
            false
        } else {
            let mut e = String::from_str("Invalid deleted value: ");
            e.append(f2);
            return Err(e);
        };
        Ok(Task { id, title: String::from_str(f3), status, deleted })
    }
}

fn malformed_message(found: u64) -> (r: String)
    ensures
        r@ == malformed(found as nat),
{
    let mut s = String::from_str("Malformed task string. Expected 4 fields, found ");
    push_decimal(&mut s, found);
    s
}

impl core::str::FromStr for Task {
    type Err = String;

    fn from_str(s: &str) -> (r: Result<Task, String>)
        ensures
            match decode_task(s.spec_bytes()) {
                Ok(t) => r matches Ok(task) && task@ == t,
                Err(m) => r matches Err(e) && e@ == m,
            },
    {
        Task::decode(s)
    }
}

impl core::str::FromStr for Status {
    type Err = String;

    fn from_str(s: &str) -> (r: Result<Status, String>)
        ensures
            match status_from(s@) {
                Ok(st) => r == Ok::<Status, String>(st),
                Err(m) => r matches Err(e) && e@ == m,
            },
    {
        Status::decode(s)
    }
}

/// The bytes of a status word.
pub open spec fn status_bytes(s: Status) -> Seq<u8> {
    match s {
        Status::Pending => seq![112u8, 101, 110, 100, 105, 110, 103],
        Status::Done => seq![100u8, 111, 110, 101],
    }
}

/// The bytes of a `bool` word.
pub open spec fn bool_bytes(b: bool) -> Seq<u8> {
    if b {
        seq![116u8, 114, 117, 101]
    } else {
        seq![102u8, 97, 108, 115, 101]
    }
}

proof fn lemma_words()
    ensures
        ascii_chars(status_bytes(Status::Pending)) == status_word(Status::Pending),
        ascii_chars(status_bytes(Status::Done)) == status_word(Status::Done),
        ascii_chars(bool_bytes(true)) == bool_word(true),
        ascii_chars(bool_bytes(false)) == bool_word(false),
        ascii_chars(seq![124u8]) == "|"@,
{
    reveal_strlit("pending");
    reveal_strlit("done");
    reveal_strlit("true");
    reveal_strlit("false");
    reveal_strlit("|");
    assert(ascii_chars(status_bytes(Status::Pending)) =~= status_word(Status::Pending));
    assert(ascii_chars(status_bytes(Status::Done)) =~= status_word(Status::Done));
    assert(ascii_chars(bool_bytes(true)) =~= bool_word(true));
    assert(ascii_chars(bool_bytes(false)) =~= bool_word(false));
    assert(ascii_chars(seq![124u8]) =~= "|"@);
}

/// The bytes of the fixed part of a task's line, up to and including the
/// third `|`.
pub open spec fn head_bytes(t: TaskV) -> Seq<u8> {
    decimal(t.id as nat) + seq![124u8] + status_bytes(t.status) + seq![124u8] + bool_bytes(
        t.deleted,
    ) + seq![124u8]
}

proof fn lemma_head_bytes(t: TaskV)
    ensures
        ascii_bytes(head_bytes(t)),
        encode_utf8(task_text(t)) == head_bytes(t) + encode_utf8(t.title),
{
    let d = decimal(t.id as nat);
    let h = head_bytes(t);
    lemma_decimal(t.id as nat);
    assert forall|i: int| 0 <= i < h.len() implies #[trigger] h[i] < 128 by {
        if i < d.len() {
            assert(h[i] == d[i]);
            assert(is_digit(d[i]));
        }
    }
    lemma_words();
    assert(ascii_chars(h) =~= ascii_chars(d) + "|"@ + status_word(t.status) + "|"@ + bool_word(
        t.deleted,
    ) + "|"@);
    assert(decimal_chars(t.id as nat) == ascii_chars(d));
    lemma_ascii_utf8(h);
    assert(task_text(t) == ascii_chars(h) + t.title);
    lemma_encode_utf8_concat(ascii_chars(h), t.title);
}

proof fn lemma_split_head(d: Seq<u8>, rest: Seq<u8>)
    requires
        forall|j: int| 0 <= j < d.len() ==> #[trigger] d[j] != 124,
    ensures
        split_pipe(d + seq![124u8] + rest) == Some((d, rest)),
{
    let b = d + seq![124u8] + rest;
    assert forall|j: int| 0 <= j < d.len() implies #[trigger] b[j] != 124 by {
        assert(b[j] == d[j]);
    }
    lemma_find_byte_is(b, 124, 0, d.len() as int);
    assert(b.take(d.len() as int) =~= d);
    assert(b.skip(d.len() as int + 1) =~= rest);
}

proof fn lemma_status_read_back(st: Status)
    ensures
        status_from(decode_utf8(status_bytes(st))) == Ok::<Status, Seq<char>>(st),
{
    let sb = status_bytes(st);
    assert forall|i: int| 0 <= i < sb.len() implies #[trigger] sb[i] < 128 by {}
    lemma_ascii_utf8(sb);
    lemma_words();
    let w = status_word(st);
    reveal_strlit("pending");
    reveal_strlit("done");
    assert(trim_start(w) == w);
    assert(trim_end(w) == w);
    assert(is_ascii_chars(w));
    assert(ascii_lowercase(w) =~= w);
}

proof fn lemma_bool_read_back(b: bool)
    ensures
        bool_from(decode_utf8(bool_bytes(b))) == Some(b),
{
    let bb = bool_bytes(b);
    assert forall|i: int| 0 <= i < bb.len() implies #[trigger] bb[i] < 128 by {}
    lemma_ascii_utf8(bb);
    lemma_words();
    reveal_strlit("true");
    reveal_strlit("false");
}

/// Reading back the line of any task gives that task: every field, a title
/// holding `|` or nothing at all included.
pub proof fn lemma_task_round_trip(t: TaskV)
    ensures
        decode_task(encode_utf8(task_text(t))) == Ok::<TaskV, Seq<char>>(t),
{
    let d = decimal(t.id as nat);
    let sb = status_bytes(t.status);
    let bb = bool_bytes(t.deleted);
    let e = encode_utf8(t.title);
    let b = encode_utf8(task_text(t));
    lemma_head_bytes(t);
    lemma_decimal(t.id as nat);
    let r2 = bb + seq![124u8] + e;
    let r1 = sb + seq![124u8] + r2;
    assert(b =~= d + seq![124u8] + r1);
    assert forall|j: int| 0 <= j < d.len() implies #[trigger] d[j] != 124 by {
        assert(is_digit(d[j]));
    }
    lemma_split_head(d, r1);
    assert forall|j: int| 0 <= j < sb.len() implies #[trigger] sb[j] != 124 by {}
    lemma_split_head(sb, r2);
    assert forall|j: int| 0 <= j < bb.len() implies #[trigger] bb[j] != 124 by {}
    lemma_split_head(bb, e);
    lemma_parse_decimal(t.id as nat, u32::MAX as nat);
    lemma_status_read_back(t.status);
    lemma_bool_read_back(t.deleted);
    encode_utf8_decode_utf8(t.title);
}

} // verus!
