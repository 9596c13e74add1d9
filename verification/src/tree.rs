//! The tree view of a task: the task, and below it, one level deeper each
//! time, the tasks it depends on.

use vstd::prelude::*;
use vstd::string::StringExecFns;
use crate::arena::slab_get;
use crate::error::GraphError;
use crate::graph::Graph;
use crate::relation::{
    acyclic, connects, graph_wf, has_edge, is_path, is_step, reachable, GraphView,
};
use crate::render::{decimal_text, forest_text, indent, tree_line, tree_text};
use crate::task::TaskId;

verus! {

/// A piece of a path is a path.
pub proof fn lemma_subpath(g: GraphView, p: Seq<TaskId>, from: int, to: int)
    requires
        is_path(g, p),
        0 <= from < to <= p.len(),
    ensures
        is_path(g, p.subrange(from, to)),
{
    let q = p.subrange(from, to);
    assert forall|i: int| 0 <= i < q.len() - 1 implies #[trigger] is_step(g, q, i) by {
        assert(is_step(g, p, from + i));
    }
}

/// In a graph without cycles no path meets a task twice.
pub proof fn lemma_path_no_duplicates(g: GraphView, p: Seq<TaskId>)
    requires
        acyclic(g),
        is_path(g, p),
    ensures
        p.no_duplicates(),
{
    assert forall|i: int, j: int| 0 <= i < j < p.len() implies p[i] != p[j] by {
        if p[i] == p[j] {
            assert(is_step(g, p, i));
            lemma_subpath(g, p, i + 1, j + 1);
            let q = p.subrange(i + 1, j + 1);
            assert(connects(g, q, p[i + 1], p[j]));
            assert(reachable(g, p[i + 1], p[i]));
        }
    }
}

/// In a well-formed graph no path is longer than there are tasks.
pub proof fn lemma_path_bounded(g: GraphView, p: Seq<TaskId>)
    requires
        graph_wf(g),
        is_path(g, p),
    ensures
        p.len() <= g.dom().len(),
{
    lemma_path_no_duplicates(g, p);
    p.unique_seq_to_set();
    assert(p.to_set().subset_of(g.dom())) by {
        assert forall|k: TaskId| p.to_set().contains(k) implies g.dom().contains(k) by {
            let i = choose|i: int| 0 <= i < p.len() && p[i] == k;
            assert(g.dom().contains(p[i]));
        }
    }
    vstd::set_lib::lemma_len_subset(p.to_set(), g.dom());
}

/// Below the end of a path, a tree that may go as deep as the graph has
/// tasks left beyond the path is the tree of any greater depth: the depth
/// is never used up.
pub proof fn lemma_tree_depth(
    g: GraphView,
    p: Seq<TaskId>,
    level: nat,
    depth: nat,
    deeper: nat,
)
    requires
        graph_wf(g),
        is_path(g, p),
        p.len() + depth >= g.dom().len(),
        depth <= deeper,
    ensures
        tree_text(g, p[p.len() - 1], level, depth) == tree_text(g, p[p.len() - 1], level, deeper),
    decreases depth, 0nat,
{
    let id = p[p.len() - 1];
    lemma_path_bounded(g, p);
    if g[id].dependencies.len() == 0 {
        assert(forest_text(g, g[id].dependencies, level + 1, 0) == Seq::<char>::empty());
        if depth > 0 {
            assert(forest_text(g, g[id].dependencies, level + 1, (depth - 1) as nat) == Seq::<
                char,
            >::empty());
        }
        if deeper > 0 {
            assert(forest_text(g, g[id].dependencies, level + 1, (deeper - 1) as nat) == Seq::<
                char,
            >::empty());
        }
        assert(tree_line(id, g[id].name, level) + Seq::<char>::empty() =~= tree_line(
            id,
            g[id].name,
            level,
        ));
    } else {
        let next = g[id].dependencies[0];
        assert(g[id].dependencies.contains(next));
        assert(has_edge(g, id, next));
        lemma_path_extends(g, p, next);
        lemma_path_bounded(g, p.push(next));
        assert(depth > 0);
        lemma_forest_depth(
            g,
            p,
            g[id].dependencies,
            level + 1,
            (depth - 1) as nat,
            (deeper - 1) as nat,
        );
    }
}

/// A path with one more edge at its end is a path.
pub proof fn lemma_path_extends(g: GraphView, p: Seq<TaskId>, next: TaskId)
    requires
        graph_wf(g),
        is_path(g, p),
        has_edge(g, p[p.len() - 1], next),
    ensures
        is_path(g, p.push(next)),
        p.push(next)[p.push(next).len() - 1] == next,
{
    let q = p.push(next);
    assert forall|i: int| 0 <= i < q.len() implies g.dom().contains(#[trigger] q[i]) by {
        if i < p.len() {
            assert(q[i] == p[i]);
        }
    }
    assert forall|i: int| 0 <= i < q.len() - 1 implies #[trigger] is_step(g, q, i) by {
        if i < p.len() - 1 {
            assert(is_step(g, p, i));
        }
    }
}

/// [`lemma_tree_depth`] for the trees of some dependencies of the task at
/// the end of the path.
pub proof fn lemma_forest_depth(
    g: GraphView,
    p: Seq<TaskId>,
    roots: Seq<TaskId>,
    level: nat,
    depth: nat,
    deeper: nat,
)
    requires
        graph_wf(g),
        is_path(g, p),
        forall|i: int| 0 <= i < roots.len() ==> has_edge(g, p[p.len() - 1], #[trigger] roots[i]),
        p.len() + 1 + depth >= g.dom().len(),
        depth <= deeper,
    ensures
        forest_text(g, roots, level, depth) == forest_text(g, roots, level, deeper),
    decreases depth, roots.len() + 1,
{
    if roots.len() > 0 {
        let last = roots[roots.len() - 1];
        assert forall|i: int| 0 <= i < roots.drop_last().len() implies has_edge(
            g,
            p[p.len() - 1],
            #[trigger] roots.drop_last()[i],
        ) by {
            assert(roots.drop_last()[i] == roots[i]);
        }
        lemma_forest_depth(g, p, roots.drop_last(), level, depth, deeper);
        lemma_path_extends(g, p, last);
        lemma_tree_depth(g, p.push(last), level, depth, deeper);
    }
}

/// The tree of a task in a well-formed graph is whole at a depth of as
/// many levels as the graph has tasks: no greater depth shows more.
pub proof fn lemma_tree_is_whole(g: GraphView, id: TaskId, level: nat, deeper: nat)
    requires
        graph_wf(g),
        g.dom().contains(id),
        deeper >= g.dom().len(),
    ensures
        tree_text(g, id, level, g.dom().len()) == tree_text(g, id, level, deeper),
{
    let p = seq![id];
    assert(is_path(g, p));
    lemma_tree_depth(g, p, level, g.dom().len(), deeper);
}

impl Graph {
    /// The tree of the task under `id` as text, a line for each task: see
    /// [`tree_text`]. A task that several tasks depend on stands below each
    /// of them.
    pub fn tree(&self, id: TaskId) -> (outcome: Result<String, GraphError>)
        requires
            self.wf(),
        ensures
            match outcome {
                Ok(text) => self@.dom().contains(id) && text@ == tree_text(
                    self@,
                    id,
                    0,
                    self@.dom().len(),
                ),
                Err(e) => e == GraphError::TaskNotFound && !self@.dom().contains(id),
            },
    {
        if !self.contains_task(id) {
            return Err(GraphError::TaskNotFound);
        }
        let mut text = String::new();
        let depth = self.len();
        self.write_tree(id, 0, depth, &mut text);
        assert(Seq::<char>::empty() + tree_text(self@, id, 0, depth as nat) =~= tree_text(
            self@,
            id,
            0,
            depth as nat,
        ));
        Ok(text)
    }

    /// Writes the tree of the task under `id` behind what `out` holds.
    fn write_tree(&self, id: TaskId, level: usize, depth: usize, out: &mut String)
        requires
            self.wf(),
            self@.dom().contains(id),
            level + depth <= usize::MAX,
        ensures
            final(out)@ == old(out)@ + tree_text(self@, id, level as nat, depth as nat),
        decreases depth,
    {
        let ghost before = out@;
        let task = slab_get(&self.tasks, id).unwrap();
        for i in 0..level
            invariant
                out@ == before + indent(i as nat),
        {
            let ghost earlier = out@;
            out.append("    ");
            assert(out@ =~= before + indent((i + 1) as nat));
        }
        let number = decimal_text(id as u64);
        out.append(number.as_str());
        out.append(") ");
        out.append(task.name.as_str());
        out.append("\n");
        let ghost line = tree_line(id, self@[id].name, level as nat);
        assert(out@ =~= before + line);
        if depth > 0 {
            let count = task.dependencies.len();
            let ghost roots = task.dependencies@;
            assert(roots.take(0) =~= Seq::empty());
            for i in 0..count
                invariant
                    self.wf(),
                    self@.dom().contains(id),
                    task@ == self@[id],
                    roots == task.dependencies@,
                    count == roots.len(),
                    depth > 0,
                    level + depth <= usize::MAX,
                    out@ == before + line + forest_text(
                        self@,
                        roots.take(i as int),
                        (level + 1) as nat,
                        (depth - 1) as nat,
                    ),
            {
                let next = task.dependencies[i];
                assert(has_edge(self@, id, next)) by {
                    assert(roots[i as int] == next);
                }
                proof {
                    assert(roots.take(i + 1).drop_last() =~= roots.take(i as int));
                    assert(roots.take(i + 1).last() == next);
                }
                let ghost earlier = out@;
                self.write_tree(next, level + 1, depth - 1, out);
                assert(out@ =~= before + line + forest_text(
                    self@,
                    roots.take(i + 1),
                    (level + 1) as nat,
                    (depth - 1) as nat,
                ));
            }
            assert(roots.take(count as int) =~= roots);
            assert(out@ =~= before + (line + forest_text(
                self@,
                roots,
                (level + 1) as nat,
                (depth - 1) as nat,
            )));
        }
    }
}

} // verus!
