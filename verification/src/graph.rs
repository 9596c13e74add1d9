//! The task graph: the arena of tasks and the operations that keep the
//! dependency relation acyclic and free of dangling handles.

use slab::Slab;
use vstd::prelude::*;
use crate::arena::{
    slab_capacity, slab_clear, slab_get, slab_get_mut, slab_insert, slab_len, slab_new, slab_tasks,
    slab_try_remove,
};
use crate::error::GraphError;
use crate::handles::strip_handle;
use crate::model::{
    finished_kept, lemma_task_edit_wf, lemma_without_task_wf, with_task, without_task,
};
use crate::relation::{
    graph_wf, has_edge, lemma_bounded_finite, lemma_node_added_acyclic, GraphView,
};
use crate::task::{Task, TaskId, TaskOrder, TaskView};

verus! {

/// A set of tasks and the dependencies between them.
#[derive(Clone, Debug)]
pub struct Graph {
    pub(crate) tasks: Slab<Task>,
}

/// The tasks of a map, each as its mathematical value.
pub open spec fn views_of(tasks: Map<TaskId, Task>) -> GraphView {
    Map::new(|id: TaskId| tasks.dom().contains(id), |id: TaskId| tasks[id]@)
}

impl View for Graph {
    type V = GraphView;

    open(crate) spec fn view(&self) -> GraphView {
        views_of(slab_tasks(self.tasks))
    }
}

impl Default for Graph {
    fn default() -> (graph: Graph)
        ensures
            graph@ == GraphView::empty(),
            graph.wf(),
    {
        Graph::new()
    }
}

impl Graph {
    /// The graph's invariants hold: see [`graph_wf`].
    pub open spec fn wf(&self) -> bool {
        graph_wf(self@)
    }

    /// Whether `task` may be inserted: it is well formed and depends only on
    /// tasks that are present.
    pub open spec fn accepts(&self, task: TaskView) -> bool {
        task.wf() && forall|d: TaskId| task.dependencies.contains(d) ==> self@.dom().contains(d)
    }

    /// An empty graph.
    pub fn new() -> (graph: Graph)
        ensures
            graph@ == GraphView::empty(),
            graph.wf(),
    {
        let graph = Graph { tasks: slab_new() };
        assert(graph@ =~= GraphView::empty());
        graph
    }

    /// Adds a task and returns its handle, which no present task had.
    pub fn insert(&mut self, task: Task) -> (id: TaskId)
        requires
            old(self).wf(),
            old(self).accepts(task@),
        ensures
            !old(self)@.dom().contains(id),
            final(self)@ == old(self)@.insert(id, task@),
            final(self).wf(),
            finished_kept(old(self)@, final(self)@),
    {
        let ghost before = self@;
        let ghost added = task@;
        let id = slab_insert(&mut self.tasks, task);
        proof {
            assert(self@ =~= before.insert(id, added));
            assert forall|b: TaskId| #[trigger] has_edge(self@, id, b) implies before.dom().contains(
                b,
            ) by {}
            lemma_node_added_acyclic(before, self@, id);
        }
        id
    }

    /// The task under `id`, if there is one.
    pub fn get(&self, id: TaskId) -> (found: Option<&Task>)
        ensures
            match found {
                Some(task) => self@.dom().contains(id) && task@ == self@[id],
                None => !self@.dom().contains(id),
            },
    {
        slab_get(&self.tasks, id)
    }

    /// The task under `id`, open for writing. The graph afterwards holds
    /// what the caller left in the task.
    pub fn get_mut(&mut self, id: TaskId) -> (found: Option<&mut Task>)
        ensures
            match found {
                Some(task) => old(self)@.dom().contains(id) && task@ == old(self)@[id]
                    && final(self)@ =~= old(self)@.insert(id, final(task)@),
                None => !old(self)@.dom().contains(id) && final(self)@ =~= old(self)@,
            },
    {
        slab_get_mut(&mut self.tasks, id)
    }

    /// Whether a task is stored under `id`.
    pub fn contains_task(&self, id: TaskId) -> (present: bool)
        ensures
            present == self@.dom().contains(id),
    {
        slab_get(&self.tasks, id).is_some()
    }

    /// The number of tasks.
    pub fn len(&self) -> (count: usize)
        ensures
            self@.dom().finite(),
            count == self@.dom().len(),
    {
        let bound = slab_capacity(&self.tasks);
        let count = slab_len(&self.tasks);
        proof {
            lemma_bounded_finite(self@, bound as nat);
            assert(self@.dom() =~= slab_tasks(self.tasks).dom());
        }
        count
    }

    /// Whether the graph holds no task.
    pub fn is_empty(&self) -> (empty: bool)
        ensures
            empty == (self@ == GraphView::empty()),
    {
        let count = self.len();
        proof {
            if count == 0 {
                assert(self@ =~= GraphView::empty());
            }
        }
        count == 0
    }

    /// Removes every task.
    pub fn clear(&mut self)
        ensures
            final(self)@ == GraphView::empty(),
            final(self).wf(),
    {
        slab_clear(&mut self.tasks);
        assert(self@ =~= GraphView::empty());
    }

    /// Takes the task under `id` out of the graph, and `id` out of every
    /// dependency list. The task comes back with its own list emptied.
    pub fn remove(&mut self, id: TaskId) -> (taken: Option<Task>)
        requires
            old(self).wf(),
        ensures
            final(self).wf(),
            finished_kept(old(self)@, final(self)@),
            match taken {
                Some(task) => old(self)@.dom().contains(id) && task@ == (TaskView {
                    dependencies: Seq::empty(),
                    ..old(self)@[id]
                }) && final(self)@ == without_task(old(self)@, id),
                None => !old(self)@.dom().contains(id) && final(self)@ == old(self)@,
            },
    {
        let ghost before = self@;
        let mut task = match slab_try_remove(&mut self.tasks, id) {
            Some(task) => task,
            None => {
                assert(self@ =~= before);
                return None;
            },
        };
        task.dependencies.clear();
        let ghost goal = without_task(before, id);
        let bound = slab_capacity(&self.tasks);
        assert(self@.dom() =~= goal.dom());
        for k in 0..bound
            invariant
                goal == without_task(before, id),
                self@.dom() == goal.dom(),
                forall|j: TaskId| goal.dom().contains(j) ==> j < bound,
                forall|j: TaskId| goal.dom().contains(j) && j < k ==> self@[j] == goal[j],
                forall|j: TaskId| goal.dom().contains(j) && j >= k ==> self@[j] == before[j],
        {
            let ghost earlier = self@;
            match slab_get_mut(&mut self.tasks, k) {
                Some(other) => {
                    strip_handle(&mut other.dependencies, id);
                },
                None => {},
            }
            proof {
                assert(self@.dom() =~= earlier.dom());
                assert forall|j: TaskId| goal.dom().contains(j) && j < k + 1 implies self@[j]
                    == goal[j] by {
                    if j < k {
                        assert(earlier[j] == goal[j]);
                    }
                }
            }
        }
        proof {
            assert(self@ =~= goal);
            lemma_without_task_wf(before, id);
        }
        Some(task)
    }

    /// Gives the task under `id` a new label.
    pub fn rename(&mut self, id: TaskId, name: String) -> (done: Result<(), GraphError>)
        requires
            old(self).wf(),
        ensures
            final(self).wf(),
            finished_kept(old(self)@, final(self)@),
            match done {
                Ok(_) => old(self)@.dom().contains(id) && final(self)@ == with_task(
                    old(self)@,
                    id,
                    TaskView { name: name@, ..old(self)@[id] },
                ),
                Err(e) => e == GraphError::TaskNotFound && !old(self)@.dom().contains(id)
                    && final(self)@ == old(self)@,
            },
    {
        let ghost before = self@;
        let done = match slab_get_mut(&mut self.tasks, id) {
            Some(task) => {
                task.name = name;
                Ok(())
            },
            None => Err(GraphError::TaskNotFound),
        };
        proof {
            if before.dom().contains(id) {
                assert(self@ =~= with_task(before, id, TaskView { name: name@, ..before[id] }));
                assert(before[id].wf());
                lemma_task_edit_wf(before, id, self@[id]);
            } else {
                assert(self@ =~= before);
            }
        }
        done
    }

    /// Sets the manual sort position of the task under `id`.
    pub fn set_order(&mut self, id: TaskId, order: TaskOrder) -> (done: Result<(), GraphError>)
        requires
            old(self).wf(),
        ensures
            final(self).wf(),
            finished_kept(old(self)@, final(self)@),
            match done {
                Ok(_) => old(self)@.dom().contains(id) && final(self)@ == with_task(
                    old(self)@,
                    id,
                    TaskView { order, ..old(self)@[id] },
                ),
                Err(e) => e == GraphError::TaskNotFound && !old(self)@.dom().contains(id)
                    && final(self)@ == old(self)@,
            },
    {
        let ghost before = self@;
        let done = match slab_get_mut(&mut self.tasks, id) {
            Some(task) => {
                task.order = order;
                Ok(())
            },
            None => Err(GraphError::TaskNotFound),
        };
        proof {
            if before.dom().contains(id) {
                assert(self@ =~= with_task(before, id, TaskView { order, ..before[id] }));
                assert(before[id].wf());
                lemma_task_edit_wf(before, id, self@[id]);
            } else {
                assert(self@ =~= before);
            }
        }
        done
    }
}

} // verus!
