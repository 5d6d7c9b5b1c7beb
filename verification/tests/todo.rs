use systems_programming::todo::commands::{
    list_lines, next_id, parse_command, parse_id, update_task, Command, UpdateOp,
};
use systems_programming::todo::error::TodoError;
use systems_programming::todo::store::{tasks_from_text, tasks_to_text};
use systems_programming::todo::task::{Status, Task};

fn args(list: &[&str]) -> Vec<String> {
    std::iter::once("todo")
        .chain(list.iter().copied())
        .map(String::from)
        .collect()
}

fn sample_tasks() -> Vec<Task> {
    vec![
        Task::new(1, String::from("buy milk")),
        Task::new(2, String::from("walk the dog")),
    ]
}

#[test]
fn no_args_is_bad_args() {
    let err = parse_command(&args(&[])).unwrap_err();

    assert!(matches!(err, TodoError::BadArgs(_)));
}

#[test]
fn unknown_command_is_bad_args() {
    let err = parse_command(&args(&["frobnicate"])).unwrap_err();

    assert!(matches!(err, TodoError::BadArgs(_)));
}

#[test]
fn add_with_title() {
    let command = parse_command(&args(&["add", "buy milk"])).unwrap();

    assert_eq!(command, Command::Add(Some(String::from("buy milk"))));
}

#[test]
fn bare_add_prompts_later() {
    let command = parse_command(&args(&["add"])).unwrap();

    assert_eq!(command, Command::Add(None));
}

#[test]
fn delete_with_id() {
    let command = parse_command(&args(&["delete", "5"])).unwrap();

    assert_eq!(command, Command::Delete(5));
}

#[test]
fn delete_without_id_is_bad_args() {
    let err = parse_command(&args(&["delete"])).unwrap_err();

    assert!(matches!(err, TodoError::BadArgs(_)));
}

#[test]
fn non_numeric_id_is_bad_args() {
    let err = parse_command(&args(&["complete", "abc"])).unwrap_err();

    assert!(matches!(err, TodoError::BadArgs(_)));
}

#[test]
fn rename_parses_id_and_title() {
    let command = parse_command(&args(&["rename", "3", "new title"])).unwrap();

    assert_eq!(
        command,
        Command::Rename {
            id: 3,
            title: String::from("new title")
        }
    );
}

#[test]
fn rename_without_title_is_bad_args() {
    let err = parse_command(&args(&["rename", "3"])).unwrap_err();

    assert!(matches!(err, TodoError::BadArgs(_)));
}

#[test]
fn parse_id_trims_padding() {
    let id = parse_id(Some(&String::from(" 7 "))).unwrap();

    assert_eq!(id, 7);
}

#[test]
fn update_complete_only_touches_matching_task() {
    let mut tasks = sample_tasks();

    update_task(&mut tasks, 2, UpdateOp::Complete).unwrap();

    assert_eq!(tasks[1].status, Status::Done);
    assert_eq!(tasks[0].status, Status::Pending);
}

#[test]
fn update_rename_replaces_title() {
    let mut tasks = sample_tasks();

    update_task(&mut tasks, 1, UpdateOp::Rename(String::from("buy oat milk"))).unwrap();

    assert_eq!(tasks[0].title, "buy oat milk");
}

#[test]
fn update_delete_marks_deleted() {
    let mut tasks = sample_tasks();

    update_task(&mut tasks, 1, UpdateOp::Delete).unwrap();

    assert!(tasks[0].deleted);
    assert!(!tasks[1].deleted);
}

#[test]
fn update_pend_reverts_completed_task() {
    let mut tasks = sample_tasks();
    tasks[0].complete();

    update_task(&mut tasks, 1, UpdateOp::Pend).unwrap();

    assert_eq!(tasks[0].status, Status::Pending);
}

#[test]
fn update_missing_id_is_not_found() {
    let mut tasks = sample_tasks();

    let err = update_task(&mut tasks, 99, UpdateOp::Complete).unwrap_err();

    assert!(matches!(err, TodoError::NotFound(99)));
}

#[test]
fn not_found_display_names_the_id() {
    assert_eq!(TodoError::NotFound(7).to_string(), "Task 7 not found!");
}

#[test]
fn parse_display_includes_line_and_reason() {
    let err = TodoError::Parse {
        line: 3,
        reason: String::from("Invalid ID: abc"),
    };

    let msg = err.to_string();

    assert!(msg.contains("line 3"));
    assert!(msg.contains("Invalid ID: abc"));
}

#[test]
fn io_error_converts_to_io_variant() {
    let io_err = std::io::Error::new(std::io::ErrorKind::PermissionDenied, "nope");

    let err: TodoError = io_err.into();

    assert!(matches!(err, TodoError::Io(_)));
}

#[test]
fn save_then_read_round_trip() {
    let mut tasks = vec![
        Task::new(1, String::from("buy milk")),
        Task::new(2, String::from("walk the dog")),
    ];
    tasks[1].complete();

    let text = tasks_to_text(&tasks);
    let read_back = tasks_from_text(&text).unwrap();

    assert_eq!(read_back, tasks);
}

#[test]
fn empty_file_gives_empty_vec() {
    let tasks = tasks_from_text("").unwrap();

    assert!(tasks.is_empty());
}

#[test]
fn blank_lines_are_skipped() {
    let tasks =
        tasks_from_text("1|pending|false|buy milk\n\n  \n2|done|false|walk the dog\n").unwrap();

    assert_eq!(tasks.len(), 2);
    assert_eq!(tasks[0].id, 1);
    assert_eq!(tasks[1].id, 2);
}

#[test]
fn malformed_line_reports_line_number() {
    let err = tasks_from_text("1|pending|false|buy milk\n\nnot a task\n").unwrap_err();

    match err {
        TodoError::Parse { line, .. } => assert_eq!(line, 3),
        other => panic!("expected Parse error, got: {}", other.to_string()),
    }
}

#[test]
fn save_overwrites_previous_content() {
    let one_task = vec![Task::new(9, String::from("only me"))];

    let read_back = tasks_from_text(&tasks_to_text(&one_task)).unwrap();

    assert_eq!(read_back, one_task);
}

#[test]
fn new_task_trims_title_and_sets_defaults() {
    let task = Task::new(1, String::from("  buy milk \n"));

    assert_eq!(task.id, 1);
    assert_eq!(task.title, "buy milk");
    assert_eq!(task.status, Status::Pending);
    assert!(!task.deleted);
}

#[test]
fn encode_decode_round_trip() {
    let mut task = Task::new(3, String::from("buy milk"));
    task.complete();

    let decoded: Task = task.to_string().parse().unwrap();

    assert_eq!(decoded, task);
}

#[test]
fn round_trip_preserves_pipe_in_title() {
    let task = Task::new(1, String::from("buy milk | eggs | bread"));

    let decoded: Task = task.to_string().parse().unwrap();

    assert_eq!(decoded.title, "buy milk | eggs | bread");
}

#[test]
fn decode_valid_line() {
    let task: Task = "7|done|true|walk the dog".parse().unwrap();

    assert_eq!(task.id, 7);
    assert_eq!(task.status, Status::Done);
    assert!(task.deleted);
    assert_eq!(task.title, "walk the dog");
}

#[test]
fn decode_rejects_too_few_fields() {
    assert!("5|done".parse::<Task>().is_err());
}

#[test]
fn decode_rejects_empty_line() {
    assert!("".parse::<Task>().is_err());
}

#[test]
fn decode_rejects_invalid_id() {
    assert!("abc|pending|false|title".parse::<Task>().is_err());
}

#[test]
fn decode_rejects_invalid_status() {
    assert!("1|donee|false|title".parse::<Task>().is_err());
}

#[test]
fn decode_rejects_invalid_deleted_flag() {
    let err = "1|pending|maybe|title".parse::<Task>().unwrap_err();

    assert!(err.contains("maybe"));
}

#[test]
fn status_parse_trims_and_ignores_case() {
    assert_eq!("  DONE ".parse::<Status>().unwrap(), Status::Done);
    assert_eq!("Pending".parse::<Status>().unwrap(), Status::Pending);
}

#[test]
fn status_parse_rejects_unknown_value() {
    assert!("finished".parse::<Status>().is_err());
}

#[test]
fn complete_and_pend_toggle_status() {
    let mut task = Task::new(1, String::from("a"));

    task.complete();
    assert_eq!(task.status, Status::Done);

    task.pend();
    assert_eq!(task.status, Status::Pending);
}

#[test]
fn delete_marks_task_deleted() {
    let mut task = Task::new(1, String::from("a"));

    task.delete();

    assert!(task.deleted);
}

#[test]
fn rename_replaces_title() {
    let mut task = Task::new(1, String::from("old"));

    task.rename(String::from("new"));

    assert_eq!(task.title, "new");
}

// Further cases: edge values, every error, each law on concrete values.

#[test]
fn task_line_has_four_fields() {
    let mut task = Task::new(4, String::from("water plants"));
    task.delete();

    assert_eq!(task.to_string(), "4|pending|true|water plants");
}

#[test]
fn checkbox_shows_status() {
    let mut task = Task::new(1, String::from("a"));
    assert_eq!(task.status.checkbox_char(), ' ');
    task.complete();
    assert_eq!(task.status.checkbox_char(), 'X');
}

#[test]
fn status_words() {
    assert_eq!(Status::Pending.to_string(), "pending");
    assert_eq!(Status::Done.to_string(), "done");
    assert_eq!(
        "finished".parse::<Status>().unwrap_err(),
        "'finished' is not a valid status"
    );
}

#[test]
fn listing_leaves_out_deleted_tasks() {
    let mut tasks = sample_tasks();
    tasks.push(Task::new(3, String::from("call mum")));
    update_task(&mut tasks, 1, UpdateOp::Delete).unwrap();
    update_task(&mut tasks, 3, UpdateOp::Complete).unwrap();

    let lines = list_lines(&tasks);

    assert_eq!(lines, vec!["2. [ ] walk the dog".to_string(), "3. [X] call mum".to_string()]);
}

#[test]
fn next_id_is_one_past_the_largest() {
    assert_eq!(next_id(&[]), 1);
    let mut tasks = sample_tasks();
    tasks.push(Task::new(7, String::from("x")));
    tasks.push(Task::new(3, String::from("y")));
    assert_eq!(next_id(&tasks), 8);
}

#[test]
fn command_words() {
    assert_eq!(parse_command(&args(&["list"])).unwrap(), Command::List);
    assert_eq!(parse_command(&args(&["complete", "2"])).unwrap(), Command::Complete(2));
    assert_eq!(parse_command(&args(&["pend", "4"])).unwrap(), Command::Pend(4));
}

#[test]
fn error_messages() {
    assert_eq!(
        parse_command(&args(&["frobnicate"])).unwrap_err().to_string(),
        "Unknown args: Unkown command!"
    );
    assert_eq!(
        parse_command(&args(&["delete"])).unwrap_err().to_string(),
        "Unknown args: ID not provided!"
    );
    let err = TodoError::Parse {
        line: 3,
        reason: String::from("Invalid ID: abc"),
    };
    assert_eq!(err.to_string(), "error Invalid ID: abc on line 3!");
}

#[test]
fn decode_reports_each_bad_field() {
    assert_eq!(
        "abc|pending|false|title".parse::<Task>().unwrap_err(),
        "Invalid ID: abc"
    );
}

#[test]
fn deleted_task_stays_in_the_file_but_not_the_listing() {
    let mut tasks = sample_tasks();
    update_task(&mut tasks, 1, UpdateOp::Delete).unwrap();

    let text = tasks_to_text(&tasks);
    assert_eq!(text, "1|pending|true|buy milk\n2|pending|false|walk the dog\n");
    let read_back = tasks_from_text(&text).unwrap();
    assert_eq!(read_back, tasks);
    assert!(read_back[0].deleted);
    assert_eq!(list_lines(&read_back), vec!["2. [ ] walk the dog".to_string()]);
}

#[test]
fn io_error_message_names_the_cause() {
    let io_err = std::io::Error::new(std::io::ErrorKind::PermissionDenied, "nope");
    let err: TodoError = io_err.into();

    assert_eq!(err.to_string(), "An error occured: nope");
}
