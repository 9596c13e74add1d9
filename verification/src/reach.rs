//! Reachability along dependency edges, decided by a depth-first search
//! that marks each task it enters.

use vstd::prelude::*;
use crate::arena::{slab_capacity, slab_get};
use crate::error::GraphError;
use crate::graph::Graph;
use crate::relation::{
    deps_present, has_edge, lemma_closed_set_holds_reachable, lemma_reachable_refl,
    lemma_reachable_step, reachable, GraphView,
};
use crate::task::TaskId;

verus! {

/// The search has entered task `k`.
pub open spec fn marked(marks: Seq<bool>, k: TaskId) -> bool {
    k < marks.len() && marks[k as int]
}

/// Every mark of `before` is a mark of `after`.
pub open spec fn marks_grow(before: Seq<bool>, after: Seq<bool>) -> bool {
    &&& after.len() == before.len()
    &&& forall|i: int| 0 <= i < before.len() && before[i] ==> #[trigger] after[i]
}

/// Every dependency of task `k` is marked.
pub open spec fn closed_at(g: GraphView, marks: Seq<bool>, k: TaskId) -> bool {
    forall|d: TaskId| #[trigger] g[k].dependencies.contains(d) ==> marked(marks, d)
}

/// The marks have a slot for every task of the graph.
pub open spec fn marks_cover(g: GraphView, marks: Seq<bool>) -> bool {
    forall|k: TaskId| #[trigger] g.dom().contains(k) ==> k < marks.len()
}

/// How many slots are not marked.
pub open spec fn unmarked_count(marks: Seq<bool>) -> nat
    decreases marks.len(),
{
    if marks.len() == 0 {
        0
    } else {
        unmarked_count(marks.drop_last()) + if marks.last() {
            0nat
        } else {
            1nat
        }
    }
}

/// More marks leave fewer slots unmarked.
pub proof fn lemma_unmarked_grow(before: Seq<bool>, after: Seq<bool>)
    requires
        marks_grow(before, after),
    ensures
        unmarked_count(after) <= unmarked_count(before),
    decreases before.len(),
{
    if before.len() > 0 {
        assert(after.last() == after[after.len() - 1]);
        assert(before.last() == before[before.len() - 1]);
        assert forall|i: int|
            0 <= i < before.drop_last().len() && before.drop_last()[i] implies #[trigger] after.drop_last()[i] by {
            assert(before[i]);
            assert(after[i]);
        }
        lemma_unmarked_grow(before.drop_last(), after.drop_last());
    }
}

/// Marking a slot that was unmarked leaves one unmarked slot fewer.
pub proof fn lemma_unmarked_mark(marks: Seq<bool>, k: int)
    requires
        0 <= k < marks.len(),
        !marks[k],
    ensures
        unmarked_count(marks.update(k, true)) + 1 == unmarked_count(marks),
    decreases marks.len(),
{
    let after = marks.update(k, true);
    if k == marks.len() - 1 {
        assert(after.drop_last() =~= marks.drop_last());
    } else {
        assert(after.drop_last() =~= marks.drop_last().update(k, true));
        lemma_unmarked_mark(marks.drop_last(), k);
    }
}

/// A task whose dependencies are all marked stays so when marks are added.
pub proof fn lemma_closed_stays(g: GraphView, before: Seq<bool>, after: Seq<bool>)
    requires
        marks_grow(before, after),
    ensures
        forall|k: TaskId| closed_at(g, before, k) ==> #[trigger] closed_at(g, after, k),
{
    assert forall|k: TaskId| closed_at(g, before, k) implies #[trigger] closed_at(g, after, k) by {
        assert forall|d: TaskId| #[trigger] g[k].dependencies.contains(d) implies marked(
            after,
            d,
        ) by {
            assert(marked(before, d));
            assert(after[d as int]);
        }
    }
}

impl Graph {
    /// Whether `to` can be reached from `from` along dependency edges. A
    /// task reaches itself. The graph need not be free of cycles: the marks
    /// keep the search from entering a task twice, so it ends, and answers
    /// rightly, on any graph in which no dependency dangles.
    pub fn is_reachable(&self, from: TaskId, to: TaskId) -> (answer: Result<bool, GraphError>)
        requires
            deps_present(self@),
        ensures
            match answer {
                Ok(found) => self@.dom().contains(from) && self@.dom().contains(to) && found
                    == reachable(self@, from, to),
                Err(e) => e == GraphError::TaskNotFound && !(self@.dom().contains(from)
                    && self@.dom().contains(to)),
            },
    {
        self.search(from, to)
    }

    /// [`Graph::is_reachable`] for any graph without dangling dependencies,
    /// be it acyclic or not: the marks keep the search from entering a task
    /// twice.
    pub(crate) fn search(&self, from: TaskId, to: TaskId) -> (answer: Result<bool, GraphError>)
        requires
            deps_present(self@),
        ensures
            match answer {
                Ok(found) => self@.dom().contains(from) && self@.dom().contains(to) && found
                    == reachable(self@, from, to),
                Err(e) => e == GraphError::TaskNotFound && !(self@.dom().contains(from)
                    && self@.dom().contains(to)),
            },
    {
        let start = match slab_get(&self.tasks, from) {
            Some(task) => task,
            None => { return Err(GraphError::TaskNotFound); },
        };
        if from == to {
            proof {
                lemma_reachable_refl(self@, from);
            }
            return Ok(true);
        }
        if !self.contains_task(to) {
            return Err(GraphError::TaskNotFound);
        }
        let bound = slab_capacity(&self.tasks);
        let mut visited = vec![false; bound];
        visited.set(from, true);
        let ghost first = visited@;
        let count = start.dependencies.len();
        for i in 0..count
            invariant
                deps_present(self@),
                self@.dom().contains(from),
                self@.dom().contains(to),
                from != to,
                start@ == self@[from],
                count == start.dependencies@.len(),
                marks_cover(self@, visited@),
                marks_grow(first, visited@),
                marked(first, from),
                !marked(visited@, to),
                forall|k: TaskId|
                    marked(visited@, k) && k != from ==> #[trigger] closed_at(self@, visited@, k),
                forall|j: int| 0 <= j < i ==> marked(visited@, #[trigger] start.dependencies@[j]),
        {
            let next = start.dependencies[i];
            assert(has_edge(self@, from, next)) by {
                assert(start.dependencies@[i as int] == next);
            }
            let ghost earlier = visited@;
            let found = self.search_from(next, to, &mut visited);
            if found {
                proof {
                    lemma_reachable_step(self@, from, next, to);
                }
                return Ok(true);
            }
            proof {
                lemma_closed_stays(self@, earlier, visited@);
            }
        }
        proof {
            let g = self@;
            let marks = visited@;
            let seen = Set::new(|k: TaskId| marked(marks, k));
            assert(closed_at(g, marks, from));
            assert forall|x: TaskId, y: TaskId|
                seen.contains(x) && #[trigger] has_edge(g, x, y) implies seen.contains(y) by {
                assert(closed_at(g, marks, x));
            }
            if reachable(g, from, to) {
                lemma_closed_set_holds_reachable(g, seen, from, to);
            }
        }
        Ok(false)
    }

    /// The search below `a`: marks `a`, then enters each dependency of `a`
    /// that is not marked yet, and stops as soon as `b` is met.
    fn search_from(&self, a: TaskId, b: TaskId, visited: &mut Vec<bool>) -> (found: bool)
        requires
            deps_present(self@),
            self@.dom().contains(a),
            self@.dom().contains(b),
            marks_cover(self@, old(visited)@),
            !marked(old(visited)@, b),
        ensures
            marks_grow(old(visited)@, final(visited)@),
            found ==> reachable(self@, a, b),
            !found ==> {
                &&& marked(final(visited)@, a)
                &&& !marked(final(visited)@, b)
                &&& closed_at(self@, final(visited)@, a)
                &&& forall|k: TaskId|
                    marked(final(visited)@, k) && !marked(old(visited)@, k) ==> #[trigger] closed_at(
                        self@,
                        final(visited)@,
                        k,
                    )
            },
        decreases unmarked_count(old(visited)@.update(a as int, true)),
    {
        if a == b {
            proof {
                lemma_reachable_refl(self@, a);
            }
            return true;
        }
        let task = slab_get(&self.tasks, a).unwrap();
        let ghost entry = visited@;
        visited.set(a, true);
        let ghost base = visited@;
        let count = task.dependencies.len();
        for i in 0..count
            invariant
                deps_present(self@),
                self@.dom().contains(a),
                self@.dom().contains(b),
                a != b,
                task@ == self@[a],
                count == task.dependencies@.len(),
                entry == old(visited)@,
                base == entry.update(a as int, true),
                marks_cover(self@, entry),
                marks_grow(base, visited@),
                !marked(visited@, b),
                forall|k: TaskId|
                    marked(visited@, k) && !marked(entry, k) && k != a ==> #[trigger] closed_at(
                        self@,
                        visited@,
                        k,
                    ),
                forall|j: int| 0 <= j < i ==> marked(visited@, #[trigger] task.dependencies@[j]),
        {
            let next = task.dependencies[i];
            assert(has_edge(self@, a, next)) by {
                assert(task.dependencies@[i as int] == next);
            }
            if !visited[next] {
                proof {
                    lemma_unmarked_grow(base, visited@);
                    lemma_unmarked_mark(visited@, next as int);
                }
                let ghost earlier = visited@;
                let found = self.search_from(next, b, visited);
                if found {
                    proof {
                        lemma_reachable_step(self@, a, next, b);
                    }
                    return true;
                }
                proof {
                    lemma_closed_stays(self@, earlier, visited@);
                }
            }
        }
        false
    }
}

} // verus!
