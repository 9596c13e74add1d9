//! Taking a graph apart into plain entries and putting one together again.
//! What comes from outside is checked in full before it counts as a graph.

use vstd::prelude::*;
use crate::arena::{entry_map, slab_capacity, slab_from_pairs, slab_get};
use crate::error::GraphError;
use crate::graph::{views_of, Graph};
use crate::relation::{deps_present, graph_wf, has_edge, lemma_bounded_finite, reachable};
use crate::task::{texts, Task, TaskId};

verus! {

/// Whether no handle comes twice in the list.
pub fn handles_distinct(handles: &Vec<TaskId>) -> (distinct: bool)
    ensures
        distinct == handles@.no_duplicates(),
{
    let count = handles.len();
    for i in 0..count
        invariant
            count == handles@.len(),
            forall|a: int, b: int| 0 <= a < i && 0 <= b < count && a != b ==> handles@[a] != handles@[b],
    {
        for j in 0..count
            invariant
                count == handles@.len(),
                i < count,
                forall|b: int| 0 <= b < j && i != b ==> handles@[i as int] != handles@[b],
        {
            if i != j && handles[i] == handles[j] {
                return false;
            }
        }
    }
    true
}

/// Whether no text comes twice in the list.
pub fn texts_distinct(list: &Vec<String>) -> (distinct: bool)
    ensures
        distinct == texts(list@).no_duplicates(),
{
    let count = list.len();
    for i in 0..count
        invariant
            count == list@.len(),
            forall|a: int, b: int|
                0 <= a < i && 0 <= b < count && a != b ==> texts(list@)[a] != texts(list@)[b],
    {
        for j in 0..count
            invariant
                count == list@.len(),
                i < count,
                forall|b: int| 0 <= b < j && i != b ==> texts(list@)[i as int] != texts(list@)[b],
        {
            if i != j && list[i] == list[j] {
                assert(texts(list@)[i as int] == texts(list@)[j as int]);
                return false;
            }
        }
    }
    true
}

impl Graph {
    /// Whether the graph's invariants hold. They do after every operation
    /// of the graph; this is for a graph that was put together from
    /// entries, or whose tasks were written through [`Graph::get_mut`].
    pub fn is_valid(&self) -> (valid: bool)
        ensures
            valid == self.wf(),
    {
        let bound = slab_capacity(&self.tasks);
        proof {
            lemma_bounded_finite(self@, bound as nat);
        }
        for k in 0..bound
            invariant
                self@.dom().finite(),
                forall|j: TaskId| self@.dom().contains(j) ==> j < bound,
                forall|j: TaskId| self@.dom().contains(j) && j < k ==> (#[trigger] self@[j]).wf(),
                forall|j: TaskId, d: TaskId|
                    j < k && #[trigger] has_edge(self@, j, d) ==> self@.dom().contains(d),
        {
            match slab_get(&self.tasks, k) {
                Some(task) => {
                    if !handles_distinct(&task.dependencies) || !texts_distinct(&task.tags) {
                        assert(!self@[k].wf());
                        return false;
                    }
                    let count = task.dependencies.len();
                    for i in 0..count
                        invariant
                            count == task.dependencies@.len(),
                            task@ == self@[k as TaskId],
                            self@.dom().contains(k),
                            forall|j: int|
                                0 <= j < i ==> self@.dom().contains(
                                    #[trigger] task.dependencies@[j],
                                ),
                    {
                        if !self.contains_task(task.dependencies[i]) {
                            assert(has_edge(self@, k, task.dependencies@[i as int]));
                            return false;
                        }
                    }
                },
                None => {},
            }
        }
        assert(deps_present(self@));
        for k in 0..bound
            invariant
                self@.dom().finite(),
                deps_present(self@),
                forall|j: TaskId| self@.dom().contains(j) ==> j < bound,
                forall|j: TaskId| self@.dom().contains(j) ==> (#[trigger] self@[j]).wf(),
                forall|j: TaskId, d: TaskId|
                    j < k && #[trigger] has_edge(self@, j, d) ==> !reachable(self@, d, j),
        {
            match slab_get(&self.tasks, k) {
                Some(task) => {
                    let count = task.dependencies.len();
                    for i in 0..count
                        invariant
                            deps_present(self@),
                            count == task.dependencies@.len(),
                            task@ == self@[k as TaskId],
                            self@.dom().contains(k),
                            forall|j: int|
                                0 <= j < i ==> !reachable(
                                    self@,
                                    #[trigger] task.dependencies@[j],
                                    k,
                                ),
                    {
                        let d = task.dependencies[i];
                        assert(has_edge(self@, k, d)) by {
                            assert(task.dependencies@[i as int] == d);
                        }
                        match self.search(d, k) {
                            Ok(false) => {},
                            _ => {
                                return false;
                            },
                        }
                    }
                },
                None => {},
            }
        }
        true
    }

    /// Whether `task` may be inserted: see [`Graph::accepts`].
    pub fn accepts_task(&self, task: &Task) -> (accepted: bool)
        ensures
            accepted == self.accepts(task@),
    {
        if !handles_distinct(&task.dependencies) || !texts_distinct(&task.tags) {
            return false;
        }
        let count = task.dependencies.len();
        for i in 0..count
            invariant
                count == task.dependencies@.len(),
                forall|j: int|
                    0 <= j < i ==> self@.dom().contains(#[trigger] task.dependencies@[j]),
        {
            if !self.contains_task(task.dependencies[i]) {
                assert(task@.dependencies.contains(task.dependencies@[i as int]));
                return false;
            }
        }
        true
    }

    /// The graph that holds each task of `entries` under its handle, where
    /// that is a graph: no task with a tag or a dependency twice, no
    /// dependency on a task that is not there, and no cycle. Where a handle
    /// comes twice, its last task counts.
    pub fn restore(entries: Vec<(TaskId, Task)>) -> (outcome: Result<Graph, GraphError>)
        ensures
            match outcome {
                Ok(graph) => graph.wf() && graph@ == views_of(entry_map(entries@)),
                Err(e) => e == GraphError::GraphParseError && !graph_wf(
                    views_of(entry_map(entries@)),
                ),
            },
    {
        let graph = Graph { tasks: slab_from_pairs(entries) };
        if graph.is_valid() {
            Ok(graph)
        } else {
            Err(GraphError::GraphParseError)
        }
    }
}

} // verus!
