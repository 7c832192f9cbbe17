//! The task record: one to-do entry with its text, completion and priority
//! flags, and its two timestamp strings.

use vstd::prelude::*;

verus! {

/// Mathematical model of a task: the same five fields, over sequences of
/// characters instead of `String`.
pub struct TaskView {
    pub todo: Seq<char>,
    pub isdone: bool,
    pub ispriority: bool,
    pub created_at: Seq<char>,
    pub updated_at: Seq<char>,
}

/// One to-do entry. `created_at` is set once, at creation; `updated_at` is
/// empty at creation and overwritten on every update.
pub struct Task {
    pub todo: String,
    pub isdone: bool,
    pub ispriority: bool,
    pub created_at: String,
    pub updated_at: String,
}

impl View for Task {
    type V = TaskView;

    open spec fn view(&self) -> TaskView {
        TaskView {
            todo: self.todo@,
            isdone: self.isdone,
            ispriority: self.ispriority,
            created_at: self.created_at@,
            updated_at: self.updated_at@,
        }
    }
}

impl DeepView for Task {
    type V = TaskView;

    open spec fn deep_view(&self) -> TaskView {
        self.view()
    }
}

impl Task {
    /// An element-wise copy of the task.
    pub fn duplicate(&self) -> (r: Task)
        ensures
            r@ == self@,
    {
        Task {
            todo: self.todo.clone(),
            isdone: self.isdone,
            ispriority: self.ispriority,
            created_at: self.created_at.clone(),
            updated_at: self.updated_at.clone(),
        }
    }
}

} // verus!
