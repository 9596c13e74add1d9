//! A single task: its label, lifecycle state, manual order, tags and the
//! handles of the tasks it depends on.

use vstd::prelude::*;
use vstd::string::StringExecFns;

verus! {

/// The handle of a task: an arena slot number, stable while the task lives.
pub type TaskId = usize;

/// Where a task stands in its life.
#[derive(Clone, Copy, PartialEq, Eq, Structural, Debug)]
pub enum TaskStatus {
    /// Not on the todo list. This is where every task starts.
    Deselected,
    /// On the todo list.
    Selected,
    /// Done. A finished task never leaves this state.
    Finished,
}

impl Default for TaskStatus {
    fn default() -> (status: TaskStatus)
        ensures
            status == TaskStatus::Deselected,
    {
        TaskStatus::Deselected
    }
}

/// A manual hint for a task's position in the todo list.
#[derive(Clone, Copy, PartialEq, Eq, Structural, PartialOrd, Ord, Debug)]
pub enum TaskOrder {
    /// An explicit position; smaller comes first.
    Order(i32),
    /// No position given: the task sorts after every explicit position.
    Last,
}

impl Default for TaskOrder {
    fn default() -> (order: TaskOrder)
        ensures
            order == TaskOrder::Last,
    {
        TaskOrder::Last
    }
}

/// The characters of each string of a list.
pub open spec fn texts(strings: Seq<String>) -> Seq<Seq<char>> {
    Seq::new(strings.len(), |i: int| strings[i]@)
}

/// What a task is, as a mathematical value.
pub struct TaskView {
    pub name: Seq<char>,
    pub status: TaskStatus,
    pub order: TaskOrder,
    pub tags: Seq<Seq<char>>,
    pub dependencies: Seq<TaskId>,
}

/// One entry of the task list.
#[derive(Clone, PartialEq, Eq, Debug)]
pub struct Task {
    /// Human-readable label. Labels need not be unique.
    pub name: String,
    /// Manual sort position in the todo list.
    pub order: TaskOrder,
    pub(crate) status: TaskStatus,
    pub(crate) tags: Vec<String>,
    pub(crate) dependencies: Vec<TaskId>,
}

impl View for Task {
    type V = TaskView;

    open(crate) spec fn view(&self) -> TaskView {
        TaskView {
            name: self.name@,
            status: self.status,
            order: self.order,
            tags: texts(self.tags@),
            dependencies: self.dependencies@,
        }
    }
}

impl TaskView {
    /// Neither the tags nor the dependencies hold an entry twice.
    pub open spec fn wf(self) -> bool {
        self.tags.no_duplicates() && self.dependencies.no_duplicates()
    }

    /// A freshly created task: deselected, unordered, without tags or
    /// dependencies.
    pub open spec fn fresh(name: Seq<char>) -> TaskView {
        TaskView {
            name,
            status: TaskStatus::Deselected,
            order: TaskOrder::Last,
            tags: Seq::empty(),
            dependencies: Seq::empty(),
        }
    }
}

impl Task {
    /// Creates a task with the given label and nothing else set.
    pub fn new(name: &str) -> (task: Task)
        ensures
            task@ == TaskView::fresh(name@),
    {
        let task = Task {
            name: String::from_str(name),
            order: TaskOrder::Last,
            status: TaskStatus::Deselected,
            tags: Vec::new(),
            dependencies: Vec::new(),
        };
        assert(task@.tags =~= Seq::empty());
        task
    }

    /// A task with every part given. Nothing is checked here: a graph
    /// takes such a task only where [`crate::Graph::accepts`] holds of it.
    pub fn from_parts(
        name: String,
        status: TaskStatus,
        order: TaskOrder,
        tags: Vec<String>,
        dependencies: Vec<TaskId>,
    ) -> (task: Task)
        ensures
            task@ == (TaskView {
                name: name@,
                status,
                order,
                tags: texts(tags@),
                dependencies: dependencies@,
            }),
    {
        Task { name, order, status, tags, dependencies }
    }

    /// The task's lifecycle state.
    pub fn status(&self) -> (status: TaskStatus)
        ensures
            status == self@.status,
    {
        self.status
    }

    /// Whether the task is on the todo list.
    pub fn selected(&self) -> (selected: bool)
        ensures
            selected == (self@.status == TaskStatus::Selected),
    {
        self.status == TaskStatus::Selected
    }

    /// The handles of the tasks that must be finished before this one, in the
    /// order in which they were added.
    pub fn dependencies(&self) -> (handles: &[TaskId])
        ensures
            handles@ == self@.dependencies,
    {
        self.dependencies.as_slice()
    }

    /// Whether the task can be done now: it depends on no task.
    pub fn doable(&self) -> (ready: bool)
        ensures
            ready == (self@.dependencies.len() == 0),
    {
        self.dependencies.len() == 0
    }

    /// The same handles as [`Task::dependencies`]: the tasks below this one
    /// in the graph.
    pub fn children(&self) -> (handles: &[TaskId])
        ensures
            handles@ == self@.dependencies,
    {
        self.dependencies.as_slice()
    }
}

} // verus!
