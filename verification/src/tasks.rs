//! The task list and its three mutations: append, mark complete, remove.
//!
//! A task is addressed by its 1-based position in the current order; a
//! position is valid iff it lies in `[1, len]`. An invalid position leaves
//! the list untouched and is reported to the caller.

use vstd::prelude::*;

verus! {

/// A single to-do entry: a description and a completion flag.
pub struct Task {
    pub description: String,
    pub done: bool,
}

/// The mathematical model of a task: its description as a sequence of
/// characters, plus the completion flag.
pub struct TaskView {
    pub description: Seq<char>,
    pub done: bool,
}

impl View for Task {
    type V = TaskView;

    open spec fn view(&self) -> TaskView {
        TaskView { description: self.description@, done: self.done }
    }
}

/// The model of a whole task list.
pub open spec fn views(ts: Seq<Task>) -> Seq<TaskView> {
    ts.map_values(|t: Task| t@)
}

/// A 1-based position is valid iff it lies in `[1, len]`.
pub open spec fn valid_index(ts: Seq<TaskView>, index: int) -> bool {
    1 <= index <= ts.len()
}

/// Appending a task: the new entry goes to the end, incomplete.
pub open spec fn add_spec(ts: Seq<TaskView>, description: Seq<char>) -> Seq<TaskView> {
    ts.push(TaskView { description, done: false })
}

/// Marking the task at a valid 1-based position complete.
pub open spec fn mark_done_spec(ts: Seq<TaskView>, index: int) -> Seq<TaskView>
    recommends
        valid_index(ts, index),
{
    ts.update(index - 1, TaskView { description: ts[index - 1].description, done: true })
}

/// Removing the task at a valid 1-based position.
pub open spec fn remove_spec(ts: Seq<TaskView>, index: int) -> Seq<TaskView>
    recommends
        valid_index(ts, index),
{
    ts.remove(index - 1)
}

/// Appends a new incomplete task with the given description.
pub fn add_task(tasks: &mut Vec<Task>, description: String)
    ensures
        views(final(tasks)@) == add_spec(views(old(tasks)@), description@),
{
    let ghost d: Seq<char> = description@;
    tasks.push(Task { description, done: false });
    proof {
        assert(views(tasks@) =~= add_spec(views(old(tasks)@), d));
    }
}

/// Marks the task at the given 1-based position complete. Returns whether
/// the position was valid; an invalid position leaves the list unchanged.
/// Marking an already complete task again succeeds and changes nothing.
pub fn mark_done(tasks: &mut Vec<Task>, index: usize) -> (ok: bool)
    ensures
        ok == valid_index(views(old(tasks)@), index as int),
        ok ==> views(final(tasks)@) == mark_done_spec(views(old(tasks)@), index as int),
        !ok ==> *final(tasks) == *old(tasks),
{
    if index == 0 || index > tasks.len() {
        return false;
    }
    tasks[index - 1].done = true;
    proof {
        assert(views(tasks@) =~= mark_done_spec(views(old(tasks)@), index as int));
    }
    true
}

/// Removes the task at the given 1-based position; every later task shifts
/// down by one. Returns whether the position was valid; an invalid position
/// leaves the list unchanged.
pub fn remove_task(tasks: &mut Vec<Task>, index: usize) -> (ok: bool)
    ensures
        ok == valid_index(views(old(tasks)@), index as int),
        ok ==> views(final(tasks)@) == remove_spec(views(old(tasks)@), index as int),
        !ok ==> *final(tasks) == *old(tasks),
{
    if index == 0 || index > tasks.len() {
        return false;
    }
    tasks.remove(index - 1);
    proof {
        assert(views(tasks@) =~= remove_spec(views(old(tasks)@), index as int));
    }
    true
}

/// Marking a valid position complete sets only that task's flag: the length
/// and every other entry are unchanged, and the description at the marked
/// position is kept. Marking the same position twice is the same as marking
/// it once.
pub proof fn lemma_mark_done_effect(ts: Seq<TaskView>, index: int)
    requires
        valid_index(ts, index),
    ensures
        mark_done_spec(ts, index).len() == ts.len(),
        mark_done_spec(ts, index)[index - 1].description == ts[index - 1].description,
        mark_done_spec(ts, index)[index - 1].done,
        forall|j: int|
            0 <= j < ts.len() && j != index - 1 ==> mark_done_spec(ts, index)[j] == ts[j],
        mark_done_spec(mark_done_spec(ts, index), index) == mark_done_spec(ts, index),
{
    assert(mark_done_spec(mark_done_spec(ts, index), index) =~= mark_done_spec(ts, index));
}

/// Removing a valid position deletes exactly that entry: the length drops by
/// exactly one, entries before the position are unchanged, and every entry
/// after it shifts down by one.
pub proof fn lemma_remove_shifts(ts: Seq<TaskView>, index: int)
    requires
        valid_index(ts, index),
    ensures
        remove_spec(ts, index).len() == ts.len() - 1,
        forall|j: int| 0 <= j < index - 1 ==> remove_spec(ts, index)[j] == ts[j],
        forall|j: int|
            index - 1 <= j < ts.len() - 1 ==> remove_spec(ts, index)[j] == ts[j + 1],
{
}

} // verus!
