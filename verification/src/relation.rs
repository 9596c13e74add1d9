//! The dependency relation as mathematics: edges, paths, reachability and
//! the invariants that every graph keeps.

use vstd::prelude::*;
use crate::task::{TaskId, TaskView};

verus! {

/// A graph as a mathematical value: the task stored under each handle.
pub type GraphView = Map<TaskId, TaskView>;

/// `a` is present and lists `b` among its dependencies.
pub open spec fn has_edge(g: GraphView, a: TaskId, b: TaskId) -> bool {
    g.dom().contains(a) && g[a].dependencies.contains(b)
}

/// The step from position `i` of `p` to the next is a dependency edge.
pub open spec fn is_step(g: GraphView, p: Seq<TaskId>, i: int) -> bool {
    has_edge(g, p[i], p[i + 1])
}

/// `p` is a non-empty walk along dependency edges through present tasks.
pub open spec fn is_path(g: GraphView, p: Seq<TaskId>) -> bool {
    &&& p.len() > 0
    &&& forall|i: int| 0 <= i < p.len() ==> g.dom().contains(#[trigger] p[i])
    &&& forall|i: int| 0 <= i < p.len() - 1 ==> #[trigger] is_step(g, p, i)
}

/// `p` is a path that starts at `a` and ends at `b`.
pub open spec fn connects(g: GraphView, p: Seq<TaskId>, a: TaskId, b: TaskId) -> bool {
    is_path(g, p) && p[0] == a && p[p.len() - 1] == b
}

/// There is a path of zero or more dependency edges from `a` to `b`.
/// Every present task reaches itself.
pub open spec fn reachable(g: GraphView, a: TaskId, b: TaskId) -> bool {
    exists|p: Seq<TaskId>| #[trigger] connects(g, p, a, b)
}

/// Every handle in a dependency list names a present task.
pub open spec fn deps_present(g: GraphView) -> bool {
    forall|a: TaskId, b: TaskId| #[trigger] has_edge(g, a, b) ==> g.dom().contains(b)
}

/// No task can be reached from one of its own dependencies.
pub open spec fn acyclic(g: GraphView) -> bool {
    forall|a: TaskId, b: TaskId| #[trigger] has_edge(g, a, b) ==> !reachable(g, b, a)
}

/// What holds of every graph: finitely many tasks, each well formed, no
/// dangling dependency and no cycle.
pub open spec fn graph_wf(g: GraphView) -> bool {
    &&& g.dom().finite()
    &&& forall|a: TaskId| g.dom().contains(a) ==> (#[trigger] g[a]).wf()
    &&& deps_present(g)
    &&& acyclic(g)
}

/// Every edge of `sub` is an edge of `g`, and every task of `sub` is in `g`.
pub open spec fn is_subgraph(sub: GraphView, g: GraphView) -> bool {
    &&& sub.dom().subset_of(g.dom())
    &&& forall|a: TaskId, b: TaskId| #[trigger] has_edge(sub, a, b) ==> has_edge(g, a, b)
}

/// `g2` has the tasks of `g` and its edges, and the edge from `t` to `d`.
pub open spec fn edge_added(g: GraphView, g2: GraphView, t: TaskId, d: TaskId) -> bool {
    &&& g2.dom() == g.dom()
    &&& forall|a: TaskId, b: TaskId| #[trigger]
        has_edge(g2, a, b) <==> has_edge(g, a, b) || (a == t && b == d)
}

/// A present task reaches itself.
pub proof fn lemma_reachable_refl(g: GraphView, a: TaskId)
    requires
        g.dom().contains(a),
    ensures
        reachable(g, a, a),
{
    let p = seq![a];
    assert(connects(g, p, a, a));
}

/// An edge followed by a path is a path.
pub proof fn lemma_reachable_step(g: GraphView, a: TaskId, b: TaskId, c: TaskId)
    requires
        has_edge(g, a, b),
        reachable(g, b, c),
    ensures
        reachable(g, a, c),
{
    let q = choose|q: Seq<TaskId>| connects(g, q, b, c);
    let p = seq![a] + q;
    assert forall|i: int| 0 <= i < p.len() implies g.dom().contains(#[trigger] p[i]) by {
        if i > 0 {
            assert(p[i] == q[i - 1]);
        }
    }
    assert forall|i: int| 0 <= i < p.len() - 1 implies #[trigger] is_step(g, p, i) by {
        if i > 0 {
            assert(is_step(g, q, i - 1));
            assert(p[i] == q[i - 1]);
            assert(p[i + 1] == q[i]);
        } else {
            assert(p[1] == q[0]);
        }
    }
    assert(connects(g, p, a, c));
}

/// Paths compose.
pub proof fn lemma_reachable_trans(g: GraphView, a: TaskId, b: TaskId, c: TaskId)
    requires
        reachable(g, a, b),
        reachable(g, b, c),
    ensures
        reachable(g, a, c),
{
    let p = choose|p: Seq<TaskId>| connects(g, p, a, b);
    lemma_path_then_reachable(g, p, 0, c);
}

/// From any position of a path that ends where another path starts, the end
/// of the second is reached.
proof fn lemma_path_then_reachable(g: GraphView, p: Seq<TaskId>, i: int, c: TaskId)
    requires
        is_path(g, p),
        0 <= i < p.len(),
        reachable(g, p[p.len() - 1], c),
    ensures
        reachable(g, p[i], c),
    decreases p.len() - i,
{
    if i < p.len() - 1 {
        lemma_path_then_reachable(g, p, i + 1, c);
        assert(is_step(g, p, i));
        lemma_reachable_step(g, p[i], p[i + 1], c);
    }
}

/// A set of tasks that is closed under dependency edges holds everything
/// that can be reached from any of its members.
pub proof fn lemma_closed_set_holds_reachable(g: GraphView, s: Set<TaskId>, a: TaskId, b: TaskId)
    requires
        s.contains(a),
        forall|x: TaskId, y: TaskId| s.contains(x) && #[trigger] has_edge(g, x, y) ==> s.contains(y),
        reachable(g, a, b),
    ensures
        s.contains(b),
{
    let p = choose|p: Seq<TaskId>| connects(g, p, a, b);
    lemma_closed_set_holds_path(g, s, p, p.len() - 1);
}

proof fn lemma_closed_set_holds_path(g: GraphView, s: Set<TaskId>, p: Seq<TaskId>, i: int)
    requires
        is_path(g, p),
        s.contains(p[0]),
        forall|x: TaskId, y: TaskId| s.contains(x) && #[trigger] has_edge(g, x, y) ==> s.contains(y),
        0 <= i < p.len(),
    ensures
        s.contains(p[i]),
    decreases i,
{
    if i > 0 {
        lemma_closed_set_holds_path(g, s, p, i - 1);
        assert(is_step(g, p, i - 1));
    }
}

/// A path of a subgraph is a path of the graph.
pub proof fn lemma_subgraph_reachable(sub: GraphView, g: GraphView, a: TaskId, b: TaskId)
    requires
        is_subgraph(sub, g),
        reachable(sub, a, b),
    ensures
        reachable(g, a, b),
{
    let p = choose|p: Seq<TaskId>| connects(sub, p, a, b);
    assert forall|i: int| 0 <= i < p.len() - 1 implies #[trigger] is_step(g, p, i) by {
        assert(is_step(sub, p, i));
    }
    assert(connects(g, p, a, b));
}

/// Taking edges or tasks away from an acyclic graph leaves it acyclic.
pub proof fn lemma_subgraph_acyclic(sub: GraphView, g: GraphView)
    requires
        is_subgraph(sub, g),
        acyclic(g),
    ensures
        acyclic(sub),
{
    assert forall|a: TaskId, b: TaskId| #[trigger] has_edge(sub, a, b) implies !reachable(
        sub,
        b,
        a,
    ) by {
        if reachable(sub, b, a) {
            lemma_subgraph_reachable(sub, g, b, a);
            assert(has_edge(g, a, b));
        }
    }
}

/// Where `d` does not reach `t`, a path of the graph with the edge from `t`
/// to `d` added either avoids that edge, or runs to `t` and on from `d`
/// inside the old graph.
proof fn lemma_path_after_edge(g: GraphView, g2: GraphView, t: TaskId, d: TaskId, p: Seq<TaskId>)
    requires
        edge_added(g, g2, t, d),
        g.dom().contains(t),
        !reachable(g, d, t),
        is_path(g2, p),
    ensures
        reachable(g, p[0], p[p.len() - 1]) || (reachable(g, p[0], t) && reachable(
            g,
            d,
            p[p.len() - 1],
        )),
    decreases p.len(),
{
    let last = p[p.len() - 1];
    if p.len() == 1 {
        lemma_reachable_refl(g, p[0]);
    } else {
        let q = p.subrange(1, p.len() as int);
        assert forall|i: int| 0 <= i < q.len() - 1 implies #[trigger] is_step(g2, q, i) by {
            assert(is_step(g2, p, i + 1));
        }
        assert(is_path(g2, q));
        lemma_path_after_edge(g, g2, t, d, q);
        assert(q[0] == p[1]);
        assert(q[q.len() - 1] == last);
        assert(is_step(g2, p, 0));
        assert(has_edge(g2, p[0], p[1]));
        if has_edge(g, p[0], p[1]) {
            if reachable(g, p[1], last) {
                lemma_reachable_step(g, p[0], p[1], last);
            } else {
                lemma_reachable_step(g, p[0], p[1], t);
            }
        } else {
            assert(p[0] == t && p[1] == d);
            lemma_reachable_refl(g, t);
        }
    }
}

/// Adding an edge from `t` to `d` keeps the graph acyclic as long as `d`
/// did not reach `t` before.
pub proof fn lemma_edge_added_acyclic(g: GraphView, g2: GraphView, t: TaskId, d: TaskId)
    requires
        acyclic(g),
        edge_added(g, g2, t, d),
        g.dom().contains(t),
        !reachable(g, d, t),
    ensures
        acyclic(g2),
{
    assert forall|a: TaskId, b: TaskId| #[trigger] has_edge(g2, a, b) implies !reachable(
        g2,
        b,
        a,
    ) by {
        if reachable(g2, b, a) {
            let p = choose|p: Seq<TaskId>| connects(g2, p, b, a);
            lemma_path_after_edge(g, g2, t, d, p);
            if has_edge(g, a, b) {
                if !reachable(g, b, a) {
                    lemma_reachable_step(g, a, b, t);
                    lemma_reachable_trans(g, d, a, t);
                }
            } else {
                assert(a == t && b == d);
            }
        }
    }
}

/// A path that starts at a task other than `n`, in a graph where no edge
/// leads to `n`, is a path of the graph without `n`.
proof fn lemma_path_avoids(g: GraphView, g2: GraphView, n: TaskId, p: Seq<TaskId>, i: int)
    requires
        g2.dom() == g.dom().insert(n),
        !g.dom().contains(n),
        forall|a: TaskId, b: TaskId| #[trigger] has_edge(g2, a, b) ==> b != n,
        forall|a: TaskId, b: TaskId| a != n && #[trigger] has_edge(g2, a, b) ==> has_edge(g, a, b),
        is_path(g2, p),
        p[0] != n,
        0 <= i < p.len(),
    ensures
        p[i] != n,
    decreases i,
{
    if i > 0 {
        lemma_path_avoids(g, g2, n, p, i - 1);
        assert(is_step(g2, p, i - 1));
    }
}

/// A new task whose dependencies are all old tasks closes no cycle.
pub proof fn lemma_node_added_acyclic(g: GraphView, g2: GraphView, n: TaskId)
    requires
        acyclic(g),
        deps_present(g),
        g2.dom() == g.dom().insert(n),
        !g.dom().contains(n),
        forall|a: TaskId| g.dom().contains(a) ==> g2[a].dependencies == g[a].dependencies,
        forall|b: TaskId| #[trigger] has_edge(g2, n, b) ==> g.dom().contains(b),
    ensures
        acyclic(g2),
        deps_present(g2),
{
    assert forall|a: TaskId, b: TaskId| #[trigger] has_edge(g2, a, b) implies b != n by {
        if a != n {
            assert(has_edge(g, a, b));
        }
    }
    assert forall|a: TaskId, b: TaskId| a != n && #[trigger] has_edge(g2, a, b) implies has_edge(
        g,
        a,
        b,
    ) by {}
    assert forall|a: TaskId, b: TaskId| #[trigger] has_edge(g2, a, b) implies !reachable(
        g2,
        b,
        a,
    ) by {
        if reachable(g2, b, a) {
            let p = choose|p: Seq<TaskId>| connects(g2, p, b, a);
            assert(b != n);
            lemma_path_avoids(g, g2, n, p, p.len() - 1);
            assert(a != n);
            assert forall|i: int| 0 <= i < p.len() implies g.dom().contains(#[trigger] p[i]) by {
                lemma_path_avoids(g, g2, n, p, i);
            }
            assert forall|i: int| 0 <= i < p.len() - 1 implies #[trigger] is_step(g, p, i) by {
                lemma_path_avoids(g, g2, n, p, i);
                assert(is_step(g2, p, i));
            }
            assert(connects(g, p, b, a));
            assert(has_edge(g, a, b));
        }
    }
    assert forall|a: TaskId, b: TaskId| #[trigger] has_edge(g2, a, b) implies g2.dom().contains(
        b,
    ) by {
        if a != n {
            assert(has_edge(g, a, b));
        }
    }
}

/// The test that a handle below `n` meets.
pub open spec fn is_below(n: nat) -> spec_fn(TaskId) -> bool {
    |k: TaskId| k < n
}

/// There are finitely many handles below any number.
pub proof fn lemma_handles_below_finite(n: nat)
    ensures
        Set::new(is_below(n)).finite(),
    decreases n,
{
    let all = Set::new(is_below(n));
    if n == 0 {
        assert(all =~= Set::empty());
    } else {
        let fewer = Set::new(is_below((n - 1) as nat));
        lemma_handles_below_finite((n - 1) as nat);
        if n - 1 <= usize::MAX {
            assert(all =~= fewer.insert((n - 1) as TaskId));
        } else {
            assert(all =~= fewer);
        }
    }
}

/// A graph whose handles are bounded has finitely many tasks.
pub proof fn lemma_bounded_finite(g: GraphView, bound: nat)
    requires
        forall|k: TaskId| g.dom().contains(k) ==> k < bound,
    ensures
        g.dom().finite(),
{
    lemma_handles_below_finite(bound);
    vstd::set_lib::lemma_len_subset(g.dom(), Set::new(is_below(bound)));
}

} // verus!
