//! The decisions of two thread-coordination exercises: a progress report
//! that a waiting thread prints until a worker has done all its items, and
//! the commands that a console loop understands before it raises a stop
//! flag.
use vstd::prelude::*;
use vstd::string::*;
use crate::decimal::decimal_chars;
use crate::text::{push_decimal, str_eq};

verus! {

/// How many items the worker processes.
pub const ITEMS: usize = 100;

/// What the waiting thread prints after reading that `done` items are
/// finished: nothing once all are, else `working.. {done}/100 done`.
pub fn progress_line(done: usize) -> (r: Option<String>)
    ensures
        done == ITEMS ==> r is None,
        done != ITEMS ==> (r matches Some(s) && s@ == "working.. "@ + decimal_chars(done as nat)
            + "/100 done"@),
{
    if done == ITEMS {
        None
    } else {
        let mut s = String::from_str("working.. ");
        push_decimal(&mut s, done as u64);
        s.append("/100 done");
        Some(s)
    }
}

/// A line typed at the console.
#[derive(Debug, Clone, Copy, PartialEq, Eq, Structural)]
pub enum ConsoleCommand {
    /// `help`: print the command list.
    Help,
    /// `stop`: raise the flag and wait for the worker.
    Stop,
    /// Anything else: report it and read on.
    Unknown,
}

/// The command a console line stands for.
pub fn console_command(line: &str) -> (c: ConsoleCommand)
    ensures
        c == (if line@ == "help"@ {
            ConsoleCommand::Help
        } else if line@ == "stop"@ {
            ConsoleCommand::Stop
        } else {
            ConsoleCommand::Unknown
        }),
{
    if str_eq(line, "help") {
        ConsoleCommand::Help
    } else if str_eq(line, "stop") {
        ConsoleCommand::Stop
    } else {
        ConsoleCommand::Unknown
    }
}

/// The answer to `help`.
pub fn help_text() -> (s: String)
    ensures
        s@ == "commands: help, stop"@,
{
    String::from_str("commands: help, stop")
}

} // verus!
