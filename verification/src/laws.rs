//! What holds of the operations taken together, proved from the values
//! that their contracts give.

use vstd::prelude::*;
use crate::handles::{
    lemma_with_handle_no_duplicates, lemma_without_absent, lemma_without_members, with_handle,
};
use crate::model::{
    after_edges, finished_kept, has_met, lemma_with_dependency_wf, transition, with_dependency,
    without_dependency, without_task,
};
use crate::relation::{
    acyclic, graph_wf, has_edge, is_subgraph, lemma_reachable_refl, lemma_subgraph_reachable,
    reachable, GraphView,
};
use crate::task::{TaskId, TaskStatus};

verus! {

/// An edge that is accepted leaves the graph acyclic: where `d` does not
/// lead to `t`, the graph in which `t` depends on `d` has no cycle.
pub proof fn lemma_accepted_edge_keeps_acyclic(g: GraphView, t: TaskId, d: TaskId)
    requires
        graph_wf(g),
        g.dom().contains(t),
        g.dom().contains(d),
        !reachable(g, d, t),
    ensures
        acyclic(with_dependency(g, t, d)),
{
    lemma_with_dependency_wf(g, t, d);
}

/// However many edges are asked for, in whatever order, the graph stays
/// well formed, and so without a cycle.
pub proof fn lemma_edges_keep_acyclic(g: GraphView, edges: Seq<(TaskId, TaskId)>)
    requires
        graph_wf(g),
    ensures
        graph_wf(after_edges(g, edges)),
        acyclic(after_edges(g, edges)),
        after_edges(g, edges).dom() == g.dom(),
    decreases edges.len(),
{
    if edges.len() > 0 {
        let before = after_edges(g, edges.drop_last());
        let t = edges.last().0;
        let d = edges.last().1;
        lemma_edges_keep_acyclic(g, edges.drop_last());
        if before.dom().contains(t) && before.dom().contains(d) && !reachable(before, d, t) {
            lemma_with_dependency_wf(before, t, d);
        }
    }
}

/// An edge is refused only where it would close a cycle: where `d` leads
/// to `t`, the graph in which `t` depends on `d` has one.
pub proof fn lemma_refused_edge_closes_cycle(g: GraphView, t: TaskId, d: TaskId)
    requires
        graph_wf(g),
        g.dom().contains(t),
        g.dom().contains(d),
        reachable(g, d, t),
    ensures
        !acyclic(with_dependency(g, t, d)),
{
    let g2 = with_dependency(g, t, d);
    assert(g[t].wf());
    lemma_with_handle_no_duplicates(g[t].dependencies, d);
    assert(g2.dom() =~= g.dom());
    assert forall|a: TaskId, b: TaskId| #[trigger] has_edge(g, a, b) implies has_edge(g2, a, b) by {
        if a == t {
            assert(with_handle(g[t].dependencies, d).contains(b));
        } else {
            assert(g2[a] == g[a]);
        }
    }
    assert(is_subgraph(g, g2));
    lemma_subgraph_reachable(g, g2, d, t);
    assert(has_edge(g2, t, d));
}

/// After a task is removed, no task that is left depends on it.
pub proof fn lemma_removed_handle_gone(g: GraphView, id: TaskId)
    ensures
        !without_task(g, id).dom().contains(id),
        forall|u: TaskId| #[trigger]
            without_task(g, id).dom().contains(u) ==> !without_task(
                g,
                id,
            )[u].dependencies.contains(id),
{
    assert forall|u: TaskId| #[trigger] without_task(g, id).dom().contains(u) implies !without_task(
        g,
        id,
    )[u].dependencies.contains(id) by {
        lemma_without_members(g[u].dependencies, id);
    }
}

/// Adding the same dependency a second time changes nothing, and the list
/// holds it once.
pub proof fn lemma_insert_dependency_idempotent(g: GraphView, t: TaskId, d: TaskId)
    requires
        graph_wf(g),
        g.dom().contains(t),
    ensures
        with_dependency(with_dependency(g, t, d), t, d) == with_dependency(g, t, d),
        with_dependency(g, t, d)[t].dependencies.no_duplicates(),
        with_dependency(g, t, d)[t].dependencies.contains(d),
{
    let once = with_dependency(g, t, d);
    assert(g[t].wf());
    lemma_with_handle_no_duplicates(g[t].dependencies, d);
    assert(with_dependency(once, t, d) =~= once);
}

/// A finished task refuses every change of status.
pub proof fn lemma_finished_is_final(desired: TaskStatus, deps_done: bool)
    ensures
        transition(TaskStatus::Finished, desired, deps_done).is_err(),
{
}

/// Across two steps that each keep finished tasks finished, a task that is
/// there throughout and was finished at first is finished at last.
pub proof fn lemma_finished_kept_trans(first: GraphView, middle: GraphView, last: GraphView)
    requires
        finished_kept(first, middle),
        finished_kept(middle, last),
        first.dom().intersect(last.dom()).subset_of(middle.dom()),
    ensures
        finished_kept(first, last),
{
    assert forall|k: TaskId|
        first.dom().contains(k) && #[trigger] last.dom().contains(k) && first[k].status
            == TaskStatus::Finished implies last[k].status == TaskStatus::Finished by {
        assert(first.dom().intersect(last.dom()).contains(k));
        assert(middle.dom().contains(k));
    }
}

/// An unfinished task without dependencies has met them.
pub proof fn lemma_no_dependencies_met(g: GraphView, id: TaskId)
    requires
        g[id].dependencies.len() == 0,
        g[id].status != TaskStatus::Finished,
    ensures
        has_met(g, id),
{
}

/// An unfinished task has unmet dependencies exactly when one of the tasks
/// it depends on is not finished.
pub proof fn lemma_unmet_iff_unfinished_dependency(g: GraphView, id: TaskId)
    requires
        g[id].status != TaskStatus::Finished,
    ensures
        !has_met(g, id) <==> exists|d: TaskId| #[trigger]
            g[id].dependencies.contains(d) && g[d].status != TaskStatus::Finished,
{
}

/// In a well-formed graph no task depends on itself.
pub proof fn lemma_no_self_dependency(g: GraphView, a: TaskId)
    requires
        graph_wf(g),
    ensures
        !has_edge(g, a, a),
{
    if has_edge(g, a, a) {
        lemma_reachable_refl(g, a);
    }
}

/// Dropping a dependency that is not there changes nothing.
pub proof fn lemma_absent_dependency_dropped(g: GraphView, t: TaskId, d: TaskId)
    requires
        g.dom().contains(t),
        !g[t].dependencies.contains(d),
    ensures
        without_dependency(g, t, d) == g,
{
    lemma_without_absent(g[t].dependencies, d);
    assert(without_dependency(g, t, d) =~= g);
}

} // verus!
