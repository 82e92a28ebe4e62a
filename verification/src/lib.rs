//! Reading and writing tasks in the todo.txt format.
//!
//! A task is one line of text. [`Task::new`] takes a line apart into its
//! completion mark, priority, description, project tags, context tags and
//! `key:value` attributes; [`Task::to_string`] writes the line back in
//! canonical order.

pub mod chars;
pub mod lemmas;
pub mod line;
pub mod roundtrip;
pub mod scan;
pub mod task;
pub mod text;
pub mod trim;
pub mod validity;

pub use task::Task;
