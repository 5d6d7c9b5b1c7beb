//! A task list kept as text, one task per line: the task model and its line
//! format, the command-line grammar, the updates, and the whole-file format.
pub mod commands;
pub mod error;
pub mod store;
pub mod task;
pub mod laws;
