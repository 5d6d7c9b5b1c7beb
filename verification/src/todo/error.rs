//! What can go wrong with a task-list command.
use vstd::prelude::*;
use crate::decimal::decimal_chars;
use crate::text::push_decimal;

verus! {

#[verifier::external_type_specification]
#[verifier::external_body]
pub struct ExIoError(std::io::Error);

/// Why a task-list command failed.
#[derive(Debug)]
pub enum TodoError {
    Io(std::io::Error),
    Parse { line: usize, reason: String },
    NotFound(u32),
    BadArgs(String),
}

/// The model of an error: messages as characters, an I/O error as just that.
pub enum TodoErrorV {
    Io,
    Parse { line: nat, reason: Seq<char> },
    NotFound(u32),
    BadArgs(Seq<char>),
}

impl View for TodoError {
    type V = TodoErrorV;

    open spec fn view(&self) -> TodoErrorV {
        match self {
            TodoError::Io(_) => TodoErrorV::Io,
            TodoError::Parse { line, reason } => TodoErrorV::Parse {
                line: *line as nat,
                reason: reason@,
            },
            TodoError::NotFound(id) => TodoErrorV::NotFound(*id),
            TodoError::BadArgs(m) => TodoErrorV::BadArgs(m@),
        }
    }
}

/// The text of an I/O error, as its `Display` writes it. Nothing is claimed of it.
#[verifier::external_body]
fn io_error_text(e: &std::io::Error) -> String {
    format!("{e}")
}

impl TodoError {
    /// The message shown to the user. For `Io` it is `An error occured: `
    /// followed by the I/O error's own text, which is not stated (it comes
    /// from the operating system); the others are as stated.
    pub fn to_string(&self) -> (r: String)
        ensures
            match self@ {
                TodoErrorV::Io => "An error occured: "@.is_prefix_of(r@),
                TodoErrorV::Parse { line, reason } => r@ == "error "@ + reason + " on line "@
                    + decimal_chars(line) + "!"@,
                TodoErrorV::NotFound(id) => r@ == "Task "@ + decimal_chars(id as nat)
                    + " not found!"@,
                TodoErrorV::BadArgs(m) => r@ == "Unknown args: "@ + m,
            },
    {
        match self {
            TodoError::Io(e) => {
                let mut s = String::from_str("An error occured: ");
                let ghost head = s@;
                let t = io_error_text(e);
                s.append(t.as_str());
                assert(s@.subrange(0, head.len() as int) =~= head);
                s
            },
            TodoError::Parse { line, reason } => {
                let mut s = String::from_str("error ");
                s.append(reason.as_str());
                s.append(" on line ");
                push_decimal(&mut s, *line as u64);
                s.append("!");
                s
            },
            TodoError::NotFound(id) => {
                let mut s = String::from_str("Task ");
                push_decimal(&mut s, *id as u64);
                s.append(" not found!");
                s
            },
            TodoError::BadArgs(m) => {
                let mut s = String::from_str("Unknown args: ");
                s.append(m.as_str());
                s
            },
        }
    }
}

impl From<std::io::Error> for TodoError {
    fn from(value: std::io::Error) -> (r: TodoError)
        ensures
            r@ == TodoErrorV::Io,
    {
        TodoError::Io(value)
    }
}

impl vstd::std_specs::convert::FromSpecImpl<std::io::Error> for TodoError {
    open spec fn obeys_from_spec() -> bool {
        true
    }

    open spec fn from_spec(v: std::io::Error) -> TodoError {
        TodoError::Io(v)
    }
}

} // verus!
