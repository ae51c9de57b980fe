//! The task record and its mathematical view.

use vstd::prelude::*;

verus! {

/// What a task is, as plain mathematical data.
pub struct TaskView {
    pub id: u64,
    pub description: Seq<char>,
    pub completed: bool,
}

/// A record with an identifier, a description and a completion flag.
#[derive(Debug)]
pub struct Task {
    pub id: u64,
    pub description: String,
    pub completed: bool,
}

impl View for Task {
    type V = TaskView;

    open spec fn view(&self) -> TaskView {
        TaskView { id: self.id, description: self.description@, completed: self.completed }
    }
}

impl Task {
    /// A fresh, not yet completed task.
    pub fn new(id: u64, description: String) -> (task: Self)
        ensures
            task.id == id,
            task.description == description,
            task.completed == false,
    {
        Self { id, description, completed: false }
    }
}

impl Clone for Task {
    fn clone(&self) -> (copy: Self)
        ensures
            copy == *self,
    {
        Task { id: self.id, description: self.description.clone(), completed: self.completed }
    }
}

} // verus!
