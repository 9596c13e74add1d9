//! The life of a task: deselected, selected, finished. Finishing needs every
//! dependency finished, and a finished task stays finished.

use vstd::prelude::*;
use crate::arena::{slab_capacity, slab_get, slab_get_mut};
use crate::error::GraphError;
use crate::graph::Graph;
use crate::model::{
    deps_finished, finished_kept, has_met, lemma_same_edges_wf, lemma_task_edit_wf, same_edges,
    transition, with_all_unfinished, with_status,
};
use crate::relation::{deps_present, has_edge};
use crate::task::{TaskId, TaskStatus};

verus! {

/// The status that asks for a task to be on the todo list, or off it.
pub open spec fn selection(selected: bool) -> TaskStatus {
    if selected {
        TaskStatus::Selected
    } else {
        TaskStatus::Deselected
    }
}

impl Graph {
    /// Whether the task under `id` can be finished now: it is not finished
    /// yet, and every task it depends on is.
    pub fn has_met_dependencies(&self, id: TaskId) -> (answer: Result<bool, GraphError>)
        requires
            deps_present(self@),
        ensures
            match answer {
                Ok(met) => self@.dom().contains(id) && met == has_met(self@, id),
                Err(e) => e == GraphError::TaskNotFound && !self@.dom().contains(id),
            },
    {
        let task = match slab_get(&self.tasks, id) {
            Some(task) => task,
            None => { return Err(GraphError::TaskNotFound); },
        };
        if task.status == TaskStatus::Finished {
            return Ok(false);
        }
        let count = task.dependencies.len();
        for i in 0..count
            invariant
                deps_present(self@),
                self@.dom().contains(id),
                task@ == self@[id],
                count == task.dependencies@.len(),
                forall|j: int|
                    0 <= j < i ==> self@[#[trigger] task.dependencies@[j]].status
                        == TaskStatus::Finished,
        {
            let d = task.dependencies[i];
            assert(has_edge(self@, id, d)) by {
                assert(task.dependencies@[i as int] == d);
            }
            let dependency = slab_get(&self.tasks, d).unwrap();
            if dependency.status != TaskStatus::Finished {
                assert(self@[id].dependencies.contains(d));
                return Ok(false);
            }
        }
        Ok(true)
    }

    /// Moves the task under `id` to the status `desired`, where the rules
    /// of [`transition`] allow it; otherwise nothing changes.
    pub fn set_status(&mut self, id: TaskId, desired: TaskStatus) -> (done: Result<(), GraphError>)
        requires
            old(self).wf(),
        ensures
            final(self).wf(),
            finished_kept(old(self)@, final(self)@),
            !old(self)@.dom().contains(id) ==> done == Err::<(), GraphError>(
                GraphError::TaskNotFound,
            ) && final(self)@ == old(self)@,
            old(self)@.dom().contains(id) ==> match transition(
                old(self)@[id].status,
                desired,
                deps_finished(old(self)@, id),
            ) {
                Ok(status) => done.is_ok() && final(self)@ == with_status(old(self)@, id, status),
                Err(e) => done == Err::<(), GraphError>(e) && final(self)@ == old(self)@,
            },
    {
        let current = match slab_get(&self.tasks, id) {
            Some(task) => task.status,
            None => { return Err(GraphError::TaskNotFound); },
        };
        match desired {
            TaskStatus::Selected => {
                if current == TaskStatus::Finished {
                    return Err(GraphError::CannotSelectFinishedTask);
                }
            },
            TaskStatus::Deselected => {
                if current == TaskStatus::Finished {
                    return Err(GraphError::CannotDeselectFinishedTask);
                }
            },
            TaskStatus::Finished => {
                if current == TaskStatus::Finished {
                    return Err(GraphError::CannotFinishFinishedTask);
                }
                let met = self.has_met_dependencies(id);
                match met {
                    Ok(true) => {},
                    _ => { return Err(GraphError::TaskDependenciesUnmet); },
                }
            },
        }
        let ghost before = self@;
        match slab_get_mut(&mut self.tasks, id) {
            Some(task) => {
                task.status = desired;
            },
            None => {},
        }
        proof {
            assert(self@ =~= with_status(before, id, desired));
            assert(before[id].wf());
            lemma_task_edit_wf(before, id, self@[id]);
        }
        Ok(())
    }

    /// Puts the task under `id` on the todo list, or takes it off. A
    /// finished task is left as it is and the call refused.
    pub fn set_selected(&mut self, id: TaskId, selected: bool) -> (done: Result<(), GraphError>)
        requires
            old(self).wf(),
        ensures
            final(self).wf(),
            finished_kept(old(self)@, final(self)@),
            !old(self)@.dom().contains(id) ==> done == Err::<(), GraphError>(
                GraphError::TaskNotFound,
            ) && final(self)@ == old(self)@,
            old(self)@.dom().contains(id) ==> match transition(
                old(self)@[id].status,
                selection(selected),
                false,
            ) {
                Ok(status) => done.is_ok() && final(self)@ == with_status(old(self)@, id, status),
                Err(e) => done == Err::<(), GraphError>(e) && final(self)@ == old(self)@,
            },
    {
        if selected {
            self.set_status(id, TaskStatus::Selected)
        } else {
            self.set_status(id, TaskStatus::Deselected)
        }
    }

    /// Puts every unfinished task on the todo list.
    pub fn select_all(&mut self)
        requires
            old(self).wf(),
        ensures
            final(self).wf(),
            finished_kept(old(self)@, final(self)@),
            final(self)@ == with_all_unfinished(old(self)@, TaskStatus::Selected),
    {
        self.mark_all(TaskStatus::Selected)
    }

    /// Takes every unfinished task off the todo list.
    pub fn deselect_all(&mut self)
        requires
            old(self).wf(),
        ensures
            final(self).wf(),
            finished_kept(old(self)@, final(self)@),
            final(self)@ == with_all_unfinished(old(self)@, TaskStatus::Deselected),
    {
        self.mark_all(TaskStatus::Deselected)
    }

    /// [`Graph::select_all`] or [`Graph::deselect_all`], as `selected` says.
    pub fn set_selected_all(&mut self, selected: bool)
        requires
            old(self).wf(),
        ensures
            final(self).wf(),
            finished_kept(old(self)@, final(self)@),
            final(self)@ == with_all_unfinished(old(self)@, selection(selected)),
    {
        if selected {
            self.mark_all(TaskStatus::Selected)
        } else {
            self.mark_all(TaskStatus::Deselected)
        }
    }

    /// Gives every unfinished task the status `status`, slot by slot.
    fn mark_all(&mut self, status: TaskStatus)
        requires
            old(self).wf(),
        ensures
            final(self).wf(),
            finished_kept(old(self)@, final(self)@),
            final(self)@ == with_all_unfinished(old(self)@, status),
    {
        let ghost before = self@;
        let ghost goal = with_all_unfinished(before, status);
        let bound = slab_capacity(&self.tasks);
        for id in 0..bound
            invariant
                goal == with_all_unfinished(before, status),
                self@.dom() == before.dom(),
                forall|k: TaskId| before.dom().contains(k) ==> k < bound,
                forall|k: TaskId| before.dom().contains(k) && k < id ==> self@[k] == goal[k],
                forall|k: TaskId| before.dom().contains(k) && k >= id ==> self@[k] == before[k],
        {
            let ghost earlier = self@;
            match slab_get_mut(&mut self.tasks, id) {
                Some(task) => {
                    if task.status != TaskStatus::Finished {
                        task.status = status;
                    }
                },
                None => {},
            }
            proof {
                assert(self@.dom() =~= earlier.dom());
                assert forall|k: TaskId| before.dom().contains(k) && k < id + 1 implies self@[k]
                    == goal[k] by {
                    if k < id {
                        assert(earlier[k] == goal[k]);
                    }
                }
            }
        }
        proof {
            assert(self@ =~= goal);
            assert(same_edges(before, goal));
            assert forall|k: TaskId| before.dom().contains(k) implies (#[trigger] goal[k]).tags.no_duplicates() by {
                assert(before[k].wf());
            }
            lemma_same_edges_wf(before, goal);
        }
    }
}

} // verus!
