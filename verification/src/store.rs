//! The task store: the authoritative, ordered, zero-indexed list of tasks.
//!
//! Mutations are exact about the new list. Each mutating operation exists in
//! two forms: a `*_at` form that takes the timestamp as an argument and states
//! the result exactly, and the plain form that reads the clock and promises
//! everything except the timestamp's value.

use vstd::prelude::*;

use crate::clock;
use crate::codec;
use crate::task::Task;
use crate::task::TaskView;

verus! {

/// The in-memory list of tasks, addressed by zero-based position.
pub struct TaskStore {
    tasks: Vec<Task>,
}

impl View for TaskStore {
    type V = Seq<TaskView>;

    closed spec fn view(&self) -> Seq<TaskView> {
        self.tasks.deep_view()
    }
}

impl TaskStore {
    /// An empty store.
    pub fn new() -> (s: Self)
        ensures
            s@ =~= Seq::<TaskView>::empty(),
    {
        TaskStore { tasks: Vec::new() }
    }

    /// Appends a new task created at time `now`: not done, priority as given,
    /// `updated_at` empty.
    pub fn add_at(&mut self, todo: String, ispriority: bool, now: String)
        ensures
            final(self)@ =~= old(self)@.push(
                TaskView {
                    todo: todo@,
                    isdone: false,
                    ispriority: ispriority,
                    created_at: now@,
                    updated_at: Seq::<char>::empty(),
                },
            ),
    {
        let task = Task {
            todo,
            isdone: false,
            ispriority,
            created_at: now,
            updated_at: String::new(),
        };
        self.tasks.push(task);
    }

    /// Appends a new task stamped with the current time.
    pub fn add_todo(&mut self, todo: String, ispriority: bool)
        ensures
            final(self)@.len() == old(self)@.len() + 1,
            final(self)@.drop_last() =~= old(self)@,
            final(self)@.last().todo == todo@,
            !final(self)@.last().isdone,
            final(self)@.last().ispriority == ispriority,
            final(self)@.last().updated_at =~= Seq::<char>::empty(),
            final(self)@.last().created_at.len() > 0,
    {
        let now = clock::now_jakarta();
        self.add_at(todo, ispriority, now);
    }

    /// If `index` is in bounds, sets that task's completion flag to `isdone`,
    /// clears its priority, and stamps `updated_at` with `now`; every other
    /// field and every other task is untouched. Out of bounds: a no-op.
    pub fn update_at(&mut self, index: usize, isdone: bool, now: String)
        ensures
            index < old(self)@.len() ==> final(self)@ =~= old(self)@.update(
                index as int,
                TaskView {
                    todo: old(self)@[index as int].todo,
                    isdone: isdone,
                    ispriority: false,
                    created_at: old(self)@[index as int].created_at,
                    updated_at: now@,
                },
            ),
            index >= old(self)@.len() ==> final(self)@ =~= old(self)@,
    {
        if index < self.tasks.len() {
            let old_task = &self.tasks[index];
            let new_task = Task {
                todo: old_task.todo.clone(),
                isdone,
                ispriority: false,
                created_at: old_task.created_at.clone(),
                updated_at: now,
            };
            self.tasks.set(index, new_task);
        }
    }

    /// The in-bounds case of `update_at`, stamped with the current time.
    pub fn update_todo(&mut self, index: usize, isdone: bool)
        ensures
            index >= old(self)@.len() ==> final(self)@ =~= old(self)@,
            index < old(self)@.len() ==> {
                &&& final(self)@.len() == old(self)@.len()
                &&& forall|j: int|
                    0 <= j < old(self)@.len() && j != index ==> final(self)@[j] == old(self)@[j]
                &&& final(self)@[index as int].todo == old(self)@[index as int].todo
                &&& final(self)@[index as int].created_at == old(self)@[index as int].created_at
                &&& final(self)@[index as int].isdone == isdone
                &&& !final(self)@[index as int].ispriority
                &&& final(self)@[index as int].updated_at.len() > 0
            },
    {
        let now = clock::now_jakarta();
        self.update_at(index, isdone, now);
    }

    /// If `index` is in bounds, removes that task; every later task shifts one
    /// position earlier. Out of bounds: a no-op.
    pub fn remove_todo(&mut self, index: usize)
        ensures
            index < old(self)@.len() ==> final(self)@ =~= old(self)@.remove(index as int),
            index >= old(self)@.len() ==> final(self)@ =~= old(self)@,
    {
        if index < self.tasks.len() {
            self.tasks.remove(index);
        }
    }

    /// A snapshot copy of the list, in insertion order. No side effects.
    pub fn get_todos(&self) -> (r: Vec<Task>)
        ensures
            r.deep_view() =~= self@,
    {
        let mut r: Vec<Task> = Vec::new();
        let mut i: usize = 0;
        while i < self.tasks.len()
            invariant
                i <= self.tasks.len(),
                r@.len() == i as int,
                forall|j: int| 0 <= j < i ==> r@[j]@ == self.tasks@[j]@,
            decreases self.tasks.len() - i,
        {
            r.push(self.tasks[i].duplicate());
            i += 1;
        }
        proof {
            assert forall|j: int| 0 <= j < r@.len() implies r.deep_view()[j] == self@[j] by {
                assert(r@[j]@ == self.tasks@[j]@);
            }
            assert(r.deep_view() =~= self@);
        }
        r
    }

    /// The number of tasks.
    pub fn len(&self) -> (n: usize)
        ensures
            n == self@.len(),
    {
        self.tasks.len()
    }

    /// The exact text of the persisted file for the current list.
    pub fn persisted(&self) -> (r: String)
        ensures
            r@ == codec::ser_tasks(self@),
    {
        codec::serialize_tasks(&self.tasks)
    }

    /// A store loaded from persisted text: the parsed list, or the empty list
    /// where the text does not parse.
    pub fn from_persisted(content: &str) -> (s: Self)
        ensures
            s@ == codec::spec_load(content@),
    {
        match codec::parse_tasks_str(content) {
            Some(v) => TaskStore { tasks: v },
            None => {
                let s = TaskStore { tasks: Vec::new() };
                proof {
                    assert(s@ =~= Seq::<TaskView>::empty());
                }
                s
            },
        }
    }
}

/// Persistence survives a restart: a store loaded from the exact text that a
/// store persisted holds the same list again.
pub proof fn lemma_persistence_round_trip(ts: Seq<TaskView>)
    ensures
        codec::spec_load(codec::ser_tasks(ts)) == ts,
{
    codec::lemma_serialize_parse_round_trip(ts);
}

/// Listing is idempotent: two snapshots taken of one store state, with no
/// mutation between them, are the same sequence.
pub proof fn lemma_list_idempotent(ts: Seq<TaskView>, r1: Seq<TaskView>, r2: Seq<TaskView>)
    requires
        r1 == ts,
        r2 == ts,
    ensures
        r1 == r2,
{
}

/// Removal at `i` keeps every earlier task in place and shifts every later
/// task exactly one position toward the front.
pub proof fn lemma_remove_shifts(ts: Seq<TaskView>, i: int, j: int)
    requires
        0 <= i < ts.len(),
        0 <= j < ts.len() - 1,
    ensures
        j < i ==> ts.remove(i)[j] == ts[j],
        j >= i ==> ts.remove(i)[j] == ts[j + 1],
{
}

} // verus!
