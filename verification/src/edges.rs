//! Adding and dropping dependency edges. An edge that would close a cycle
//! is refused before anything changes.

use vstd::prelude::*;
use crate::arena::slab_get_mut;
use crate::error::GraphError;
use crate::graph::Graph;
use crate::handles::{contains_handle, lemma_with_handle_no_duplicates, strip_handle, with_handles};
use crate::model::{
    after_insert_dependency, finished_kept, lemma_with_dependency_wf, lemma_without_dependencies_wf,
    lemma_without_dependency_wf, with_dependency, without_dependencies, without_dependency,
};
use crate::relation::{reachable, GraphView};
use crate::task::{Task, TaskId, TaskView};

verus! {

/// Every handle of the list names a present task.
pub open spec fn all_present(g: GraphView, handles: Seq<TaskId>) -> bool {
    forall|i: int| 0 <= i < handles.len() ==> g.dom().contains(#[trigger] handles[i])
}

/// What [`with_handles`] builds from an empty list: no repetition, and the
/// handles of `more` and no others.
pub proof fn lemma_with_handles(more: Seq<TaskId>)
    ensures
        with_handles(Seq::empty(), more).no_duplicates(),
        forall|x: TaskId| #[trigger]
            with_handles(Seq::empty(), more).contains(x) <==> more.contains(x),
    decreases more.len(),
{
    if more.len() > 0 {
        let front = more.drop_last();
        let built = with_handles(Seq::empty(), front);
        lemma_with_handles(front);
        lemma_with_handle_no_duplicates(built, more.last());
        assert forall|x: TaskId| #[trigger]
            with_handles(Seq::empty(), more).contains(x) <==> more.contains(x) by {
            if more.contains(x) {
                let i = choose|i: int| 0 <= i < more.len() && more[i] == x;
                if i < front.len() {
                    assert(front[i] == x);
                }
            }
            if front.contains(x) {
                let i = choose|i: int| 0 <= i < front.len() && front[i] == x;
                assert(more[i] == x);
            }
            assert(more[more.len() - 1] == more.last());
        }
    }
}

impl Graph {
    /// Makes the task under `task_id` depend on the one under
    /// `dependency_id`. Refused where a handle is vacant, and where the
    /// dependency already leads back to the task; an edge that is already
    /// there is not added again.
    pub fn insert_dependency(&mut self, task_id: TaskId, dependency_id: TaskId) -> (done: Result<
        (),
        GraphError,
    >)
        requires
            old(self).wf(),
        ensures
            final(self).wf(),
            finished_kept(old(self)@, final(self)@),
            final(self)@ == after_insert_dependency(old(self)@, task_id, dependency_id),
            match done {
                Ok(_) => {
                    &&& old(self)@.dom().contains(task_id)
                    &&& old(self)@.dom().contains(dependency_id)
                    &&& !reachable(old(self)@, dependency_id, task_id)
                    &&& final(self)@ == with_dependency(old(self)@, task_id, dependency_id)
                },
                Err(e) => {
                    &&& final(self)@ == old(self)@
                    &&& if old(self)@.dom().contains(task_id) && old(self)@.dom().contains(
                        dependency_id,
                    ) {
                        e == GraphError::CycleDetected && reachable(
                            old(self)@,
                            dependency_id,
                            task_id,
                        )
                    } else {
                        e == GraphError::TaskNotFound
                    }
                },
            },
    {
        if !self.contains_task(dependency_id) {
            return Err(GraphError::TaskNotFound);
        }
        match self.is_reachable(dependency_id, task_id) {
            Err(e) => { return Err(GraphError::TaskNotFound); },
            Ok(true) => { return Err(GraphError::CycleDetected); },
            Ok(false) => {},
        }
        let ghost before = self@;
        match slab_get_mut(&mut self.tasks, task_id) {
            Some(task) => {
                if !contains_handle(&task.dependencies, dependency_id) {
                    task.dependencies.push(dependency_id);
                }
            },
            None => {},
        }
        proof {
            assert(self@ =~= with_dependency(before, task_id, dependency_id));
            lemma_with_dependency_wf(before, task_id, dependency_id);
        }
        Ok(())
    }

    /// [`Graph::insert_dependency`] under its other name: the child of a
    /// task is a task it depends on.
    pub fn insert_child(&mut self, task_id: TaskId, child_id: TaskId) -> (done: Result<
        (),
        GraphError,
    >)
        requires
            old(self).wf(),
        ensures
            final(self).wf(),
            finished_kept(old(self)@, final(self)@),
            final(self)@ == after_insert_dependency(old(self)@, task_id, child_id),
            match done {
                Ok(_) => {
                    &&& old(self)@.dom().contains(task_id)
                    &&& old(self)@.dom().contains(child_id)
                    &&& !reachable(old(self)@, child_id, task_id)
                    &&& final(self)@ == with_dependency(old(self)@, task_id, child_id)
                },
                Err(e) => {
                    &&& final(self)@ == old(self)@
                    &&& if old(self)@.dom().contains(task_id) && old(self)@.dom().contains(
                        child_id,
                    ) {
                        e == GraphError::CycleDetected && reachable(old(self)@, child_id, task_id)
                    } else {
                        e == GraphError::TaskNotFound
                    }
                },
            },
    {
        self.insert_dependency(task_id, child_id)
    }

    /// Drops the dependency of the task under `task_id` on `dependency_id`,
    /// if there is one. Only a vacant `task_id` is an error.
    pub fn remove_dependency(&mut self, task_id: TaskId, dependency_id: TaskId) -> (done: Result<
        (),
        GraphError,
    >)
        requires
            old(self).wf(),
        ensures
            final(self).wf(),
            finished_kept(old(self)@, final(self)@),
            match done {
                Ok(_) => old(self)@.dom().contains(task_id) && final(self)@ == without_dependency(
                    old(self)@,
                    task_id,
                    dependency_id,
                ),
                Err(e) => e == GraphError::TaskNotFound && !old(self)@.dom().contains(task_id)
                    && final(self)@ == old(self)@,
            },
    {
        let ghost before = self@;
        let done = match slab_get_mut(&mut self.tasks, task_id) {
            Some(task) => {
                strip_handle(&mut task.dependencies, dependency_id);
                Ok(())
            },
            None => Err(GraphError::TaskNotFound),
        };
        proof {
            if before.dom().contains(task_id) {
                assert(self@ =~= without_dependency(before, task_id, dependency_id));
                lemma_without_dependency_wf(before, task_id, dependency_id);
            } else {
                assert(self@ =~= before);
            }
        }
        done
    }

    /// [`Graph::remove_dependency`] under its other name.
    pub fn remove_child(&mut self, task_id: TaskId, child_id: TaskId) -> (done: Result<
        (),
        GraphError,
    >)
        requires
            old(self).wf(),
        ensures
            final(self).wf(),
            finished_kept(old(self)@, final(self)@),
            match done {
                Ok(_) => old(self)@.dom().contains(task_id) && final(self)@ == without_dependency(
                    old(self)@,
                    task_id,
                    child_id,
                ),
                Err(e) => e == GraphError::TaskNotFound && !old(self)@.dom().contains(task_id)
                    && final(self)@ == old(self)@,
            },
    {
        self.remove_dependency(task_id, child_id)
    }

    /// Drops every dependency of the task under `task_id`.
    pub fn clear_dependencies(&mut self, task_id: TaskId) -> (done: Result<(), GraphError>)
        requires
            old(self).wf(),
        ensures
            final(self).wf(),
            finished_kept(old(self)@, final(self)@),
            match done {
                Ok(_) => old(self)@.dom().contains(task_id) && final(self)@
                    == without_dependencies(old(self)@, task_id),
                Err(e) => e == GraphError::TaskNotFound && !old(self)@.dom().contains(task_id)
                    && final(self)@ == old(self)@,
            },
    {
        let ghost before = self@;
        let done = match slab_get_mut(&mut self.tasks, task_id) {
            Some(task) => {
                task.dependencies.clear();
                Ok(())
            },
            None => Err(GraphError::TaskNotFound),
        };
        proof {
            if before.dom().contains(task_id) {
                assert(self@ =~= without_dependencies(before, task_id));
                lemma_without_dependencies_wf(before, task_id);
            } else {
                assert(self@ =~= before);
            }
        }
        done
    }

    /// [`Graph::clear_dependencies`] under its other name.
    pub fn clear_children(&mut self, task_id: TaskId) -> (done: Result<(), GraphError>)
        requires
            old(self).wf(),
        ensures
            final(self).wf(),
            finished_kept(old(self)@, final(self)@),
            match done {
                Ok(_) => old(self)@.dom().contains(task_id) && final(self)@
                    == without_dependencies(old(self)@, task_id),
                Err(e) => e == GraphError::TaskNotFound && !old(self)@.dom().contains(task_id)
                    && final(self)@ == old(self)@,
            },
    {
        self.clear_dependencies(task_id)
    }

    /// Adds a task that depends on `children`, each taken once and in the
    /// order given, whatever dependencies the task carried before. Refused,
    /// with nothing changed, where a child is not present.
    pub fn insert_with_children(&mut self, task: Task, children: Vec<TaskId>) -> (done: Result<
        TaskId,
        GraphError,
    >)
        requires
            old(self).wf(),
            task@.tags.no_duplicates(),
        ensures
            final(self).wf(),
            finished_kept(old(self)@, final(self)@),
            match done {
                Ok(id) => {
                    &&& all_present(old(self)@, children@)
                    &&& !old(self)@.dom().contains(id)
                    &&& final(self)@ == old(self)@.insert(
                        id,
                        TaskView {
                            dependencies: with_handles(Seq::empty(), children@),
                            ..task@
                        },
                    )
                },
                Err(e) => e == GraphError::TaskNotFound && !all_present(old(self)@, children@)
                    && final(self)@ == old(self)@,
            },
    {
        let mut task = task;
        let ghost given = task@;
        let count = children.len();
        let mut kept: Vec<TaskId> = Vec::new();
        proof {
            assert(children@.take(0) =~= Seq::empty());
        }
        for i in 0..count
            invariant
                count == children@.len(),
                self.wf(),
                self@ == old(self)@,
                all_present(self@, children@.take(i as int)),
                kept@ == with_handles(Seq::empty(), children@.take(i as int)),
        {
            let child = children[i];
            if !self.contains_task(child) {
                assert(!self@.dom().contains(children@[i as int]));
                return Err(GraphError::TaskNotFound);
            }
            proof {
                assert(children@.take(i + 1).drop_last() =~= children@.take(i as int));
                assert(children@.take(i + 1).last() == child);
                assert forall|j: int| 0 <= j < i + 1 implies self@.dom().contains(
                    #[trigger] children@.take(i + 1)[j],
                ) by {
                    if j < i {
                        assert(children@.take(i as int)[j] == children@[j]);
                    }
                }
            }
            if !contains_handle(&kept, child) {
                kept.push(child);
            }
        }
        proof {
            assert(children@.take(count as int) =~= children@);
            lemma_with_handles(children@);
        }
        task.dependencies = kept;
        let ghost before = self@;
        let ghost added = task@;
        assert(added == TaskView {
            dependencies: with_handles(Seq::empty(), children@),
            ..given
        });
        assert forall|d: TaskId| added.dependencies.contains(d) implies before.dom().contains(d) by {
            let i = choose|i: int| 0 <= i < children@.len() && children@[i] == d;
            assert(before.dom().contains(children@[i]));
        }
        let id = self.insert(task);
        Ok(id)
    }
}

} // verus!
