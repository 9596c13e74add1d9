//! What the walk from the selected tasks meets: each task once, and exactly
//! the tasks that a selected task leads to.

use vstd::prelude::*;
use crate::listing::{handle_limit, lemma_matching_members};
use crate::relation::{
    graph_wf, has_edge, lemma_closed_set_holds_reachable, lemma_reachable_refl,
    lemma_reachable_step, reachable, GraphView,
};
use crate::task::{TaskId, TaskStatus};
use crate::traverse::{
    closure_of_selected, is_selected, lemma_unseen_less, selected_handles, unseen, visit,
};

verus! {

/// Some task of `roots` leads to `x`.
pub open spec fn reached_from(g: GraphView, roots: Seq<TaskId>, x: TaskId) -> bool {
    exists|i: int| 0 <= i < roots.len() && #[trigger] reachable(g, roots[i], x)
}

/// Every dependency of a task that was met is met or waits to be entered.
pub open spec fn edges_covered(g: GraphView, seen: Seq<TaskId>, pending: Seq<TaskId>) -> bool {
    forall|x: TaskId, d: TaskId|
        seen.contains(x) && #[trigger] has_edge(g, x, d) ==> seen.contains(d) || pending.contains(d)
}

/// What a walk gives: no task twice; what was met before and what waited
/// to be entered; with each task its dependencies; and nothing that no
/// waiting task leads to.
pub proof fn lemma_visit(g: GraphView, pending: Seq<TaskId>, seen: Seq<TaskId>)
    requires
        graph_wf(g),
        forall|i: int| 0 <= i < pending.len() ==> g.dom().contains(#[trigger] pending[i]),
        seen.no_duplicates(),
        edges_covered(g, seen, pending),
    ensures
        visit(g, pending, seen).no_duplicates(),
        forall|x: TaskId| seen.contains(x) ==> visit(g, pending, seen).contains(x),
        forall|x: TaskId| pending.contains(x) ==> visit(g, pending, seen).contains(x),
        forall|x: TaskId, d: TaskId|
            visit(g, pending, seen).contains(x) && #[trigger] has_edge(g, x, d) ==> visit(
                g,
                pending,
                seen,
            ).contains(d),
        forall|x: TaskId| #[trigger]
            visit(g, pending, seen).contains(x) ==> seen.contains(x) || reached_from(g, pending, x),
    decreases unseen(g, seen), pending.len(),
{
    let found = visit(g, pending, seen);
    if pending.len() > 0 {
        let id = pending[0];
        let rest = pending.drop_first();
        assert(g.dom().contains(id));
        assert forall|x: TaskId| pending.contains(x) <==> x == id || rest.contains(x) by {
            if pending.contains(x) {
                let i = choose|i: int| 0 <= i < pending.len() && pending[i] == x;
                if i > 0 {
                    assert(rest[i - 1] == x);
                }
            }
            if rest.contains(x) {
                let i = choose|i: int| 0 <= i < rest.len() && rest[i] == x;
                assert(pending[i + 1] == x);
            }
        }
        assert forall|i: int| 0 <= i < rest.len() implies g.dom().contains(#[trigger] rest[i]) by {
            assert(rest[i] == pending[i + 1]);
        }
        if seen.contains(id) {
            assert(found == visit(g, rest, seen));
            lemma_visit(g, rest, seen);
            assert forall|x: TaskId| #[trigger] found.contains(x) implies seen.contains(x)
                || reached_from(g, pending, x) by {
                if !seen.contains(x) {
                    let i = choose|i: int| 0 <= i < rest.len() && #[trigger] reachable(g, rest[i], x);
                    assert(reachable(g, pending[i + 1], x));
                }
            }
        } else {
            let deps = g[id].dependencies;
            let next = deps + rest;
            let more = seen.push(id);
            assert(found == visit(g, next, more));
            lemma_unseen_less(g, seen, id);
            assert forall|x: TaskId| more.contains(x) <==> x == id || seen.contains(x) by {
                if more.contains(x) {
                    let i = choose|i: int| 0 <= i < more.len() && more[i] == x;
                    if i < seen.len() {
                        assert(seen[i] == x);
                    }
                }
                if seen.contains(x) {
                    let i = choose|i: int| 0 <= i < seen.len() && seen[i] == x;
                    assert(more[i] == x);
                }
                assert(more[seen.len() as int] == id);
            }
            assert forall|x: TaskId| next.contains(x) <==> deps.contains(x) || rest.contains(x) by {
                if next.contains(x) {
                    let i = choose|i: int| 0 <= i < next.len() && next[i] == x;
                    if i < deps.len() {
                        assert(deps[i] == x);
                    } else {
                        assert(rest[i - deps.len()] == x);
                    }
                }
                if deps.contains(x) {
                    let i = choose|i: int| 0 <= i < deps.len() && deps[i] == x;
                    assert(next[i] == x);
                }
                if rest.contains(x) {
                    let i = choose|i: int| 0 <= i < rest.len() && rest[i] == x;
                    assert(next[deps.len() + i] == x);
                }
            }
            assert forall|i: int| 0 <= i < next.len() implies g.dom().contains(#[trigger] next[i]) by {
                if i < deps.len() {
                    assert(deps.contains(deps[i]));
                    assert(has_edge(g, id, deps[i]));
                } else {
                    assert(next[i] == rest[i - deps.len()]);
                }
            }
            assert(edges_covered(g, more, next)) by {
                assert forall|x: TaskId, d: TaskId|
                    more.contains(x) && #[trigger] has_edge(g, x, d) implies more.contains(d)
                    || next.contains(d) by {
                    if x != id {
                        assert(seen.contains(d) || pending.contains(d));
                    }
                }
            }
            lemma_visit(g, next, more);
            assert forall|x: TaskId| #[trigger] found.contains(x) implies seen.contains(x)
                || reached_from(g, pending, x) by {
                if !seen.contains(x) {
                    if x == id {
                        lemma_reachable_refl(g, id);
                        assert(reachable(g, pending[0], x));
                    } else {
                        let i = choose|i: int|
                            0 <= i < next.len() && #[trigger] reachable(g, next[i], x);
                        if i < deps.len() {
                            assert(deps.contains(deps[i]));
                            lemma_reachable_step(g, id, deps[i], x);
                            assert(reachable(g, pending[0], x));
                        } else {
                            assert(next[i] == pending[i - deps.len() + 1]);
                            assert(reachable(g, pending[i - deps.len() + 1], x));
                        }
                    }
                }
            }
        }
    }
}

/// The walk from the selected tasks meets no task twice, and meets exactly
/// the tasks that some selected task leads to; a selected task leads to
/// itself.
pub proof fn lemma_closure_of_selected(g: GraphView)
    requires
        graph_wf(g),
    ensures
        closure_of_selected(g).no_duplicates(),
        forall|x: TaskId| #[trigger]
            closure_of_selected(g).contains(x) <==> exists|r: TaskId|
                g.dom().contains(r) && g[r].status == TaskStatus::Selected && #[trigger] reachable(
                    g,
                    r,
                    x,
                ),
{
    let roots = selected_handles(g);
    let found = closure_of_selected(g);
    let none = Seq::<TaskId>::empty();
    lemma_matching_members(g, is_selected(), 0, handle_limit());
    assert forall|i: int| 0 <= i < roots.len() implies g.dom().contains(#[trigger] roots[i]) by {
        assert(roots.contains(roots[i]));
    }
    lemma_visit(g, roots, none);
    assert forall|x: TaskId| #[trigger] found.contains(x) <==> exists|r: TaskId|
        g.dom().contains(r) && g[r].status == TaskStatus::Selected && #[trigger] reachable(
            g,
            r,
            x,
        ) by {
        if found.contains(x) {
            assert(reached_from(g, roots, x));
            let i = choose|i: int| 0 <= i < roots.len() && #[trigger] reachable(g, roots[i], x);
            assert(roots.contains(roots[i]));
        }
        if exists|r: TaskId|
            g.dom().contains(r) && g[r].status == TaskStatus::Selected && #[trigger] reachable(
                g,
                r,
                x,
            ) {
            let r = choose|r: TaskId|
                g.dom().contains(r) && g[r].status == TaskStatus::Selected && #[trigger] reachable(
                    g,
                    r,
                    x,
                );
            assert(roots.contains(r));
            assert(found.contains(r));
            lemma_closed_set_holds_reachable(g, found.to_set(), r, x);
        }
    }
}

} // verus!
