//! A terminal-oriented task-list engine for the todo.txt convention:
//! a line parser that recovers structured task fields from plain text,
//! a filtering and faceting pipeline over task collections, a generic
//! cursor-over-list container, and an application controller that ties
//! them together.

pub mod app;
pub mod date;
pub mod parse;
pub mod selection_list;
pub mod task;
pub mod tasks;
pub mod text;

use vstd::prelude::*;

verus! {

/// Parses raw lines into tasks, in order, skipping blank lines; every
/// task that comes out is well-formed.
pub fn read_tasks(lines: &Vec<String>) -> (r: Vec<task::Task>)
    ensures
        tasks::views_of(r@) == tasks::parsed_tasks(tasks::strings_of(lines@)),
        forall|j: int| 0 <= j < r@.len() ==> (#[trigger] r@[j])@.wf(),
{
    tasks::read(lines)
}

} // verus!
