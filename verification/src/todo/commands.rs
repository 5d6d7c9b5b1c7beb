//! The command-line grammar `todo <command> [arguments]`, and the updates a
//! command makes to the task list.
use vstd::prelude::*;
use vstd::utf8::*;
use vstd::string::*;
use crate::decimal::{decimal_chars, parse_unsigned, parse_unsigned_bytes};
use crate::text::{push_decimal, str_eq, str_trim, trim};
use crate::todo::error::{TodoError, TodoErrorV};
use crate::todo::task::{Status, Task, TaskV};

verus! {

broadcast use group_utf8_lib;

/// A parsed command line.
#[derive(Debug, PartialEq)]
pub enum Command {
    Add(Option<String>),
    Rename { id: u32, title: String },
    Complete(u32),
    Pend(u32),
    Delete(u32),
    List,
}

/// The model of a command.
pub enum CommandV {
    Add(Option<Seq<char>>),
    Rename { id: u32, title: Seq<char> },
    Complete(u32),
    Pend(u32),
    Delete(u32),
    List,
}

impl View for Command {
    type V = CommandV;

    open spec fn view(&self) -> CommandV {
        match self {
            Command::Add(None) => CommandV::Add(None),
            Command::Add(Some(t)) => CommandV::Add(Some(t@)),
            Command::Rename { id, title } => CommandV::Rename { id: *id, title: title@ },
            Command::Complete(id) => CommandV::Complete(*id),
            Command::Pend(id) => CommandV::Pend(*id),
            Command::Delete(id) => CommandV::Delete(*id),
            Command::List => CommandV::List,
        }
    }
}

/// A change to one task.
pub enum UpdateOp {
    Rename(String),
    Complete,
    Delete,
    Pend,
}

/// The model of a change.
pub enum UpdateOpV {
    Rename(Seq<char>),
    Complete,
    Delete,
    Pend,
}

impl View for UpdateOp {
    type V = UpdateOpV;

    open spec fn view(&self) -> UpdateOpV {
        match self {
            UpdateOp::Rename(t) => UpdateOpV::Rename(t@),
            UpdateOp::Complete => UpdateOpV::Complete,
            UpdateOp::Delete => UpdateOpV::Delete,
            UpdateOp::Pend => UpdateOpV::Pend,
        }
    }
}

/// The command-line arguments as texts.
pub open spec fn args_view(args: Seq<String>) -> Seq<Seq<char>> {
    args.map_values(|a: String| a@)
}

/// The argument at `i`, if there is one.
pub open spec fn arg(args: Seq<Seq<char>>, i: int) -> Option<Seq<char>> {
    if 0 <= i < args.len() {
        Some(args[i])
    } else {
        None
    }
}

/// A task id given as an argument: trimmed, it must be a decimal `u32`.
pub open spec fn id_from(a: Option<Seq<char>>) -> Result<u32, Seq<char>> {
    match a {
        None => Err("ID not provided!"@),
        Some(s) => match parse_unsigned(encode_utf8(trim(s)), u32::MAX as nat) {
            Some(v) => Ok(v as u32),
            None => Err("invalid task id: "@ + trim(s)),
        },
    }
}

/// The command that an argument list (program name first) spells, or the
/// message that says why it spells none.
pub open spec fn command_from(args: Seq<Seq<char>>) -> Result<CommandV, Seq<char>> {
    if args.len() < 2 {
        Err("usage: todo <add|list|...>"@)
    } else {
        let c = args[1];
        if c == "add"@ {
            Ok(CommandV::Add(arg(args, 2)))
        } else if c == "delete"@ {
            match id_from(arg(args, 2)) {
                Ok(id) => Ok(CommandV::Delete(id)),
                Err(m) => Err(m),
            }
        } else if c == "rename"@ {
            match id_from(arg(args, 2)) {
                Err(m) => Err(m),
                Ok(id) => match arg(args, 3) {
                    None => Err("rename needs a new title"@),
                    Some(t) => Ok(CommandV::Rename { id, title: t }),
                },
            }
        } else if c == "complete"@ {
            match id_from(arg(args, 2)) {
                Ok(id) => Ok(CommandV::Complete(id)),
                Err(m) => Err(m),
            }
        } else if c == "pend"@ {
            match id_from(arg(args, 2)) {
                Ok(id) => Ok(CommandV::Pend(id)),
                Err(m) => Err(m),
            }
        } else if c == "list"@ {
            Ok(CommandV::List)
        } else {
            Err("Unkown command!"@)
        }
    }
}

/// Reads a task id argument: surrounding whitespace is trimmed, and what is
/// left must be a decimal `u32`.
pub fn parse_id(id: Option<&String>) -> (r: Result<u32, TodoError>)
    ensures
        match id_from(
            match id {
                Some(s) => Some(s@),
                None => None,
            },
        ) {
            Ok(v) => r == Ok::<u32, TodoError>(v),
            Err(m) => r matches Err(e) && e@ == TodoErrorV::BadArgs(m),
        },
{
    match id {
        None => Err(TodoError::BadArgs(String::from_str("ID not provided!"))),
        Some(s) => {
            let t = str_trim(s.as_str());
            match parse_unsigned_bytes(t.as_bytes(), u32::MAX as u64) {
                Some(v) => Ok(v as u32),
                None => {
                    let mut m = String::from_str("invalid task id: ");
                    m.append(t);
                    Err(TodoError::BadArgs(m))
                },
            }
        },
    }
}

fn arg_ref(args: &[String], i: usize) -> (r: Option<&String>)
    ensures
        match r {
            Some(s) => arg(args_view(args@), i as int) == Some(s@),
            None => arg(args_view(args@), i as int) is None,
        },
{
    if i < args.len() {
        Some(&args[i])
    } else {
        None
    }
}

/// Reads a command line (program name first) into a command.
pub fn parse_command(args: &[String]) -> (r: Result<Command, TodoError>)
    ensures
        match command_from(args_view(args@)) {
            Ok(c) => r matches Ok(cmd) && cmd@ == c,
            Err(m) => r matches Err(e) && e@ == TodoErrorV::BadArgs(m),
        },
{
    let ghost a = args_view(args@);
    if args.len() < 2 {
        return Err(TodoError::BadArgs(String::from_str("usage: todo <add|list|...>")));
    }
    let cmd = args[1].as_str();
    assert(cmd@ == a[1]);
    if str_eq(cmd, "add") {
        match arg_ref(args, 2) {
            Some(t) => Ok(Command::Add(Some(t.clone()))),
            None => Ok(Command::Add(None)),
        }
    } else if str_eq(cmd, "delete") {
        let id = parse_id(arg_ref(args, 2))?;
        Ok(Command::Delete(id))
    } else if str_eq(cmd, "rename") {
        let id = parse_id(arg_ref(args, 2))?;
        match arg_ref(args, 3) {
            Some(t) => Ok(Command::Rename { id, title: t.clone() }),
            None => Err(TodoError::BadArgs(String::from_str("rename needs a new title"))),
        }
    } else if str_eq(cmd, "complete") {
        let id = parse_id(arg_ref(args, 2))?;
        Ok(Command::Complete(id))
    } else if str_eq(cmd, "pend") {
        let id = parse_id(arg_ref(args, 2))?;
        Ok(Command::Pend(id))
    } else if str_eq(cmd, "list") {
        Ok(Command::List)
    } else {
        Err(TodoError::BadArgs(String::from_str("Unkown command!")))
    }
}

/// The tasks as models.
pub open spec fn tasks_view(ts: Seq<Task>) -> Seq<TaskV> {
    ts.map_values(|t: Task| t@)
}

/// The position of the first task at or after `i` with the given id.
pub open spec fn find_task(ts: Seq<TaskV>, id: u32, i: int) -> Option<int>
    decreases ts.len() - i,
{
    if i < 0 || i >= ts.len() {
        None
    } else if ts[i].id == id {
        Some(i)
    } else {
        find_task(ts, id, i + 1)
    }
}

/// What a change makes of a task.
pub open spec fn apply_op(t: TaskV, op: UpdateOpV) -> TaskV {
    match op {
        UpdateOpV::Rename(title) => TaskV { title, ..t },
        UpdateOpV::Complete => TaskV { status: Status::Done, ..t },
        UpdateOpV::Delete => TaskV { deleted: true, ..t },
        UpdateOpV::Pend => TaskV { status: Status::Pending, ..t },
    }
}

/// Applies a change to the first task with the given id, leaving every other
/// task as it was; when no task has that id nothing changes and the error is
/// `NotFound(id)`.
pub fn update_task(tasks: &mut [Task], id: u32, operation: UpdateOp) -> (r: Result<
    (),
    TodoError,
>)
    ensures
        match find_task(tasks_view(old(tasks)@), id, 0) {
            Some(k) => {
                &&& r is Ok
                &&& tasks_view(final(tasks)@) == tasks_view(old(tasks)@).update(
                    k,
                    apply_op(tasks_view(old(tasks)@)[k], operation@),
                )
            },
            None => {
                &&& r matches Err(e) && e@ == TodoErrorV::NotFound(id)
                &&& tasks_view(final(tasks)@) == tasks_view(old(tasks)@)
            },
        },
{
    let ghost before = tasks_view(tasks@);
    let mut i: usize = 0;
    while i < tasks.len()
        invariant
            i <= tasks@.len(),
            tasks_view(tasks@) == before,
            before == tasks_view(old(tasks)@),
            find_task(before, id, 0) == find_task(before, id, i as int),
        decreases tasks@.len() - i,
    {
        if tasks[i].id == id {
            assert(before[i as int].id == id);
            assert(find_task(before, id, i as int) == Some(i as int));
            let ghost op = operation@;
            match operation {
                UpdateOp::Complete => tasks[i].complete(),
                UpdateOp::Delete => tasks[i].delete(),
                UpdateOp::Rename(new_title) => tasks[i].rename(new_title),
                UpdateOp::Pend => tasks[i].pend(),
            }
            assert(tasks_view(tasks@) =~= before.update(i as int, apply_op(before[i as int], op)));
            return Ok(());
        }
        i += 1;
    }
    Err(TodoError::NotFound(id))
}

/// The largest id among the tasks, or 0 when there are none.
pub open spec fn max_id(ts: Seq<TaskV>) -> nat
    decreases ts.len(),
{
    if ts.len() == 0 {
        0
    } else {
        let m = max_id(ts.drop_last());
        if ts.last().id > m {
            ts.last().id as nat
        } else {
            m
        }
    }
}

/// `max_id` is the largest id in the list, deleted tasks included: no task
/// has a larger one, and some task has it (or the list is empty and it is 0).
pub proof fn lemma_max_id_is_largest(ts: Seq<TaskV>)
    ensures
        forall|i: int| 0 <= i < ts.len() ==> (#[trigger] ts[i]).id <= max_id(ts),
        ts.len() == 0 ==> max_id(ts) == 0,
        ts.len() > 0 ==> exists|i: int| 0 <= i < ts.len() && (#[trigger] ts[i]).id == max_id(ts),
    decreases ts.len(),
{
    if ts.len() > 0 {
        let init = ts.drop_last();
        lemma_max_id_is_largest(init);
        assert forall|i: int| 0 <= i < ts.len() implies (#[trigger] ts[i]).id <= max_id(ts) by {
            if i < ts.len() - 1 {
                assert(ts[i] == init[i]);
            }
        }
        if ts.last().id <= max_id(init) && init.len() > 0 {
            let k = choose|k: int| 0 <= k < init.len() && (#[trigger] init[k]).id == max_id(init);
            assert(ts[k] == init[k]);
        } else {
            assert(ts[ts.len() - 1].id == max_id(ts));
        }
    }
}

/// The id for a new task: one more than the largest id in use, so above
/// the id of every task in the list, deleted or not.
pub fn next_id(tasks: &[Task]) -> (r: u32)
    requires
        max_id(tasks_view(tasks@)) < u32::MAX,
    ensures
        r == max_id(tasks_view(tasks@)) + 1,
        forall|i: int| 0 <= i < tasks@.len() ==> r > (#[trigger] tasks@[i]).id,
{
    proof {
        lemma_max_id_is_largest(tasks_view(tasks@));
        assert forall|i: int| 0 <= i < tasks@.len() implies max_id(tasks_view(tasks@)) >= (
        #[trigger] tasks@[i]).id by {
            assert(tasks_view(tasks@)[i] == tasks@[i]@);
        }
    }
    let ghost ts = tasks_view(tasks@);
    let mut m: u32 = 0;
    let mut i: usize = 0;
    while i < tasks.len()
        invariant
            i <= tasks@.len(),
            ts == tasks_view(tasks@),
            m == max_id(ts.take(i as int)),
        decreases tasks@.len() - i,
    {
        assert(ts.take(i + 1).drop_last() =~= ts.take(i as int));
        if tasks[i].id > m {
            m = tasks[i].id;
        }
        i += 1;
    }
    assert(ts.take(i as int) =~= ts);
    m + 1
}

/// The live (not deleted) tasks, in order.
pub open spec fn live_tasks(ts: Seq<TaskV>) -> Seq<TaskV>
    decreases ts.len(),
{
    if ts.len() == 0 {
        Seq::empty()
    } else if ts.last().deleted {
        live_tasks(ts.drop_last())
    } else {
        live_tasks(ts.drop_last()).push(ts.last())
    }
}

/// How a task is listed: `id. [X] title`, or `id. [ ] title` when pending.
pub open spec fn list_line(t: TaskV) -> Seq<char> {
    decimal_chars(t.id as nat) + ". ["@ + (if t.status == Status::Done {
        "X"@
    } else {
        " "@
    }) + "] "@ + t.title
}

/// The lines of a listing: one per live task, deleted tasks left out.
pub fn list_lines(tasks: &[Task]) -> (r: Vec<String>)
    ensures
        r@.len() == live_tasks(tasks_view(tasks@)).len(),
        forall|i: int|
            0 <= i < r@.len() ==> #[trigger] r@[i]@ == list_line(live_tasks(tasks_view(tasks@))[i]),
{
    let ghost ts = tasks_view(tasks@);
    let mut out: Vec<String> = Vec::new();
    let mut i: usize = 0;
    while i < tasks.len()
        invariant
            i <= tasks@.len(),
            ts == tasks_view(tasks@),
            out@.len() == live_tasks(ts.take(i as int)).len(),
            forall|j: int|
                0 <= j < out@.len() ==> #[trigger] out@[j]@ == list_line(
                    live_tasks(ts.take(i as int))[j],
                ),
        decreases tasks@.len() - i,
    {
        assert(ts.take(i + 1).drop_last() =~= ts.take(i as int));
        let t = &tasks[i];
        if !t.deleted {
            let mut s = String::new();
            push_decimal(&mut s, t.id as u64);
            s.append(". [");
            if t.status == Status::Done {
                s.append("X");
            } else {
                s.append(" ");
            }
            s.append("] ");
            s.append(t.title.as_str());
            assert(s@ =~= list_line(ts[i as int]));
            out.push(s);
        }
        i += 1;
    }
    assert(ts.take(i as int) =~= ts);
    out
}

} // verus!
