use vstd::prelude::*;

verus! {

/// A flat task record as the store hands it out. Ids begin at 1.
#[derive(Debug, Clone)]
pub struct Task {
    pub id: i64,
    pub description: String,
    pub complete: bool,
    pub parent: Option<i64>,
}

/// What a task holds, with its text as a sequence of characters.
pub struct TaskView {
    pub id: i64,
    pub description: Seq<char>,
    pub complete: bool,
    pub parent: Option<i64>,
}

impl View for Task {
    type V = TaskView;

    open spec fn view(&self) -> TaskView {
        TaskView {
            id: self.id,
            description: self.description@,
            complete: self.complete,
            parent: self.parent,
        }
    }
}

/// The views of a sequence of tasks.
pub open spec fn task_views(tasks: Seq<Task>) -> Seq<TaskView> {
    tasks.map_values(|t: Task| t@)
}

impl Task {
    /// The same task, held anew.
    pub fn duplicate(&self) -> (r: Task)
        ensures
            r@ == self@,
    {
        Task {
            id: self.id,
            description: self.description.clone(),
            complete: self.complete,
            parent: self.parent,
        }
    }
}

} // verus!
