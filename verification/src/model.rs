//! What each operation does to a graph, stated on the graph's mathematical
//! value, and why the result is again a well-formed graph.

use vstd::prelude::*;
use crate::error::GraphError;
use crate::handles::{
    lemma_with_handle_no_duplicates, lemma_without_members, lemma_without_no_duplicates,
    with_handle, without,
};
use crate::relation::{
    edge_added, graph_wf, has_edge, is_subgraph, lemma_edge_added_acyclic, lemma_subgraph_acyclic,
    reachable, GraphView,
};
use crate::task::{TaskId, TaskStatus, TaskView};

verus! {

/// The graph with the task under `id` replaced by `task`.
pub open spec fn with_task(g: GraphView, id: TaskId, task: TaskView) -> GraphView {
    g.insert(id, task)
}

/// The graph in which `t` also depends on `d`.
pub open spec fn with_dependency(g: GraphView, t: TaskId, d: TaskId) -> GraphView {
    g.insert(t, TaskView { dependencies: with_handle(g[t].dependencies, d), ..g[t] })
}

/// What asking for `t` to depend on `d` leaves: the graph with the edge,
/// where both tasks are present and `d` does not lead to `t`; else the
/// graph as it was.
pub open spec fn after_insert_dependency(g: GraphView, t: TaskId, d: TaskId) -> GraphView {
    if g.dom().contains(t) && g.dom().contains(d) && !reachable(g, d, t) {
        with_dependency(g, t, d)
    } else {
        g
    }
}

/// What asking for each edge of `edges` in turn leaves, an edge being a
/// task and the task it is to depend on.
pub open spec fn after_edges(g: GraphView, edges: Seq<(TaskId, TaskId)>) -> GraphView
    decreases edges.len(),
{
    if edges.len() == 0 {
        g
    } else {
        after_insert_dependency(after_edges(g, edges.drop_last()), edges.last().0, edges.last().1)
    }
}

/// The graph in which `t` no longer depends on `d`.
pub open spec fn without_dependency(g: GraphView, t: TaskId, d: TaskId) -> GraphView {
    g.insert(t, TaskView { dependencies: without(g[t].dependencies, d), ..g[t] })
}

/// The graph in which `t` depends on nothing.
pub open spec fn without_dependencies(g: GraphView, t: TaskId) -> GraphView {
    g.insert(t, TaskView { dependencies: Seq::empty(), ..g[t] })
}

/// The graph without the task under `id`, and without `id` in any
/// dependency list.
pub open spec fn without_task(g: GraphView, id: TaskId) -> GraphView {
    Map::new(
        |k: TaskId| g.dom().contains(k) && k != id,
        |k: TaskId| TaskView { dependencies: without(g[k].dependencies, id), ..g[k] },
    )
}

/// The graph in which the task under `id` has the given status.
pub open spec fn with_status(g: GraphView, id: TaskId, status: TaskStatus) -> GraphView {
    g.insert(id, TaskView { status, ..g[id] })
}

/// The graph in which every unfinished task has the given status.
pub open spec fn with_all_unfinished(g: GraphView, status: TaskStatus) -> GraphView {
    Map::new(
        |k: TaskId| g.dom().contains(k),
        |k: TaskId|
            if g[k].status == TaskStatus::Finished {
                g[k]
            } else {
                TaskView { status, ..g[k] }
            },
    )
}

/// Every dependency of the task under `id` is finished.
pub open spec fn deps_finished(g: GraphView, id: TaskId) -> bool {
    forall|d: TaskId| #[trigger] g[id].dependencies.contains(d) ==> g[d].status == TaskStatus::Finished
}

/// The task under `id` is ready to be finished: it is not finished yet and
/// every dependency of it is.
pub open spec fn has_met(g: GraphView, id: TaskId) -> bool {
    g[id].status != TaskStatus::Finished && deps_finished(g, id)
}

/// The status that a task takes when `desired` is asked of it, or the reason
/// why it keeps the one it has.
pub open spec fn transition(current: TaskStatus, desired: TaskStatus, deps_done: bool) -> Result<
    TaskStatus,
    GraphError,
> {
    match (desired, current) {
        (TaskStatus::Selected, TaskStatus::Finished) => Err(GraphError::CannotSelectFinishedTask),
        (TaskStatus::Deselected, TaskStatus::Finished) => Err(
            GraphError::CannotDeselectFinishedTask,
        ),
        (TaskStatus::Finished, TaskStatus::Finished) => Err(GraphError::CannotFinishFinishedTask),
        (TaskStatus::Finished, _) => if deps_done {
            Ok(TaskStatus::Finished)
        } else {
            Err(GraphError::TaskDependenciesUnmet)
        },
        _ => Ok(desired),
    }
}

/// Every task that was finished and is still there is still finished.
pub open spec fn finished_kept(before: GraphView, after: GraphView) -> bool {
    forall|k: TaskId|
        before.dom().contains(k) && #[trigger] after.dom().contains(k) && before[k].status
            == TaskStatus::Finished ==> after[k].status == TaskStatus::Finished
}

/// `after` has the tasks of `before` with the same dependencies.
pub open spec fn same_edges(before: GraphView, after: GraphView) -> bool {
    &&& after.dom() == before.dom()
    &&& forall|k: TaskId|
        before.dom().contains(k) ==> (#[trigger] after[k]).dependencies == before[k].dependencies
}

/// A change that leaves every dependency list alone, and no tag list with a
/// repetition, leaves the graph well formed.
pub proof fn lemma_same_edges_wf(before: GraphView, after: GraphView)
    requires
        graph_wf(before),
        same_edges(before, after),
        forall|k: TaskId| before.dom().contains(k) ==> (#[trigger] after[k]).tags.no_duplicates(),
    ensures
        graph_wf(after),
{
    assert forall|a: TaskId, b: TaskId| #[trigger] has_edge(after, a, b) implies has_edge(
        before,
        a,
        b,
    ) by {
        assert(after[a].dependencies == before[a].dependencies);
    }
    assert(is_subgraph(after, before));
    lemma_subgraph_acyclic(after, before);
    assert forall|a: TaskId| after.dom().contains(a) implies (#[trigger] after[a]).wf() by {
        assert(before[a].wf());
    }
    assert forall|a: TaskId, b: TaskId| #[trigger] has_edge(after, a, b) implies after.dom().contains(
        b,
    ) by {
        assert(has_edge(before, a, b));
    }
}

/// Replacing one task by another with the same dependencies, and with tags
/// that do not repeat, leaves the graph well formed.
pub proof fn lemma_task_edit_wf(g: GraphView, id: TaskId, task: TaskView)
    requires
        graph_wf(g),
        g.dom().contains(id),
        task.dependencies == g[id].dependencies,
        task.tags.no_duplicates(),
    ensures
        graph_wf(with_task(g, id, task)),
{
    let g2 = with_task(g, id, task);
    assert(g2.dom() =~= g.dom());
    assert(same_edges(g, g2));
    assert forall|k: TaskId| g.dom().contains(k) implies (#[trigger] g2[k]).tags.no_duplicates() by {
        assert(g[k].wf());
    }
    lemma_same_edges_wf(g, g2);
}

/// A new dependency on a task that does not lead back leaves the graph well
/// formed.
pub proof fn lemma_with_dependency_wf(g: GraphView, t: TaskId, d: TaskId)
    requires
        graph_wf(g),
        g.dom().contains(t),
        g.dom().contains(d),
        !reachable(g, d, t),
    ensures
        graph_wf(with_dependency(g, t, d)),
        edge_added(g, with_dependency(g, t, d), t, d),
{
    let g2 = with_dependency(g, t, d);
    assert(g[t].wf());
    lemma_with_handle_no_duplicates(g[t].dependencies, d);
    assert(g2.dom() =~= g.dom());
    assert forall|a: TaskId, b: TaskId| #[trigger]
        has_edge(g2, a, b) <==> has_edge(g, a, b) || (a == t && b == d) by {
        if a == t {
            assert(g2[t].dependencies == with_handle(g[t].dependencies, d));
        } else {
            assert(g2[a] == g[a]);
        }
    }
    lemma_edge_added_acyclic(g, g2, t, d);
    assert forall|a: TaskId| g2.dom().contains(a) implies (#[trigger] g2[a]).wf() by {
        if a != t {
            assert(g[a].wf());
        }
    }
    assert forall|a: TaskId, b: TaskId| #[trigger] has_edge(g2, a, b) implies g2.dom().contains(
        b,
    ) by {
        if has_edge(g, a, b) {
        }
    }
}

/// Taking edges away from some tasks, and possibly one task with every edge
/// that led to it, leaves the graph well formed.
pub proof fn lemma_fewer_edges_wf(g: GraphView, g2: GraphView)
    requires
        graph_wf(g),
        g2.dom().subset_of(g.dom()),
        forall|k: TaskId|
            g2.dom().contains(k) ==> (#[trigger] g2[k]).tags == g[k].tags
                && g2[k].dependencies.no_duplicates(),
        forall|a: TaskId, b: TaskId| #[trigger]
            has_edge(g2, a, b) ==> has_edge(g, a, b) && g2.dom().contains(b),
    ensures
        graph_wf(g2),
{
    vstd::set_lib::lemma_len_subset(g2.dom(), g.dom());
    assert(is_subgraph(g2, g));
    lemma_subgraph_acyclic(g2, g);
    assert forall|a: TaskId| g2.dom().contains(a) implies (#[trigger] g2[a]).wf() by {
        assert(g[a].wf());
    }
}

/// Dropping one dependency leaves the graph well formed.
pub proof fn lemma_without_dependency_wf(g: GraphView, t: TaskId, d: TaskId)
    requires
        graph_wf(g),
        g.dom().contains(t),
    ensures
        graph_wf(without_dependency(g, t, d)),
{
    let g2 = without_dependency(g, t, d);
    assert(g[t].wf());
    lemma_without_no_duplicates(g[t].dependencies, d);
    lemma_without_members(g[t].dependencies, d);
    assert(g2.dom() =~= g.dom());
    assert forall|k: TaskId| g2.dom().contains(k) implies (#[trigger] g2[k]).tags == g[k].tags
        && g2[k].dependencies.no_duplicates() by {
        assert(g[k].wf());
    }
    assert forall|a: TaskId, b: TaskId| #[trigger] has_edge(g2, a, b) implies has_edge(g, a, b)
        && g2.dom().contains(b) by {
        if a == t {
            assert(without(g[t].dependencies, d).contains(b));
        }
        assert(has_edge(g, a, b));
    }
    lemma_fewer_edges_wf(g, g2);
}

/// Dropping every dependency of one task leaves the graph well formed.
pub proof fn lemma_without_dependencies_wf(g: GraphView, t: TaskId)
    requires
        graph_wf(g),
        g.dom().contains(t),
    ensures
        graph_wf(without_dependencies(g, t)),
{
    let g2 = without_dependencies(g, t);
    assert(g2.dom() =~= g.dom());
    assert forall|k: TaskId| g2.dom().contains(k) implies (#[trigger] g2[k]).tags == g[k].tags
        && g2[k].dependencies.no_duplicates() by {
        assert(g[k].wf());
    }
    assert forall|a: TaskId, b: TaskId| #[trigger] has_edge(g2, a, b) implies has_edge(g, a, b)
        && g2.dom().contains(b) by {
        assert(a != t);
        assert(has_edge(g, a, b));
    }
    lemma_fewer_edges_wf(g, g2);
}

/// Removing a task, and its handle from every list, leaves the graph well
/// formed.
pub proof fn lemma_without_task_wf(g: GraphView, id: TaskId)
    requires
        graph_wf(g),
    ensures
        graph_wf(without_task(g, id)),
{
    let g2 = without_task(g, id);
    assert forall|k: TaskId| g2.dom().contains(k) implies (#[trigger] g2[k]).tags == g[k].tags
        && g2[k].dependencies.no_duplicates() by {
        assert(g[k].wf());
        lemma_without_no_duplicates(g[k].dependencies, id);
    }
    assert forall|a: TaskId, b: TaskId| #[trigger] has_edge(g2, a, b) implies has_edge(g, a, b)
        && g2.dom().contains(b) by {
        lemma_without_members(g[a].dependencies, id);
        assert(has_edge(g, a, b));
    }
    lemma_fewer_edges_wf(g, g2);
}

} // verus!
