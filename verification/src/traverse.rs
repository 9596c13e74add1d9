//! The candidate todo list: every selected task and everything it depends
//! on, each once, in the order in which a depth-first walk meets them.

use vstd::prelude::*;
use crate::arena::{slab_capacity, slab_get};
use crate::closure::lemma_closure_of_selected;
use crate::graph::Graph;
use crate::listing::{
    entries_match, handle_limit, handles_of, lemma_matching_bound, matching, matching_between,
};
use crate::reach::{
    lemma_unmarked_grow, lemma_unmarked_mark, marked, marks_cover, marks_grow, unmarked_count,
};
use crate::relation::{has_edge, GraphView};
use crate::task::{Task, TaskId, TaskStatus, TaskView};

verus! {

/// How many tasks of the graph the walk has not met yet.
pub open spec fn unseen(g: GraphView, seen: Seq<TaskId>) -> nat {
    g.dom().difference(seen.to_set()).len()
}

/// Meeting a task for the first time leaves fewer unseen.
pub proof fn lemma_unseen_less(g: GraphView, seen: Seq<TaskId>, id: TaskId)
    requires
        g.dom().finite(),
        g.dom().contains(id),
        !seen.contains(id),
    ensures
        unseen(g, seen.push(id)) < unseen(g, seen),
{
    let left = g.dom().difference(seen.to_set());
    let after = g.dom().difference(seen.push(id).to_set());
    assert(left.contains(id));
    assert forall|k: TaskId| after.contains(k) <==> left.remove(id).contains(k) by {
        if seen.push(id).contains(k) && k != id {
            let i = choose|i: int| 0 <= i < seen.push(id).len() && seen.push(id)[i] == k;
            assert(seen[i] == k);
        }
        if seen.contains(k) {
            let i = choose|i: int| 0 <= i < seen.len() && seen[i] == k;
            assert(seen.push(id)[i] == k);
        }
        assert(seen.push(id)[seen.len() as int] == id);
    }
    assert(after =~= left.remove(id));
}

/// The order in which a depth-first walk meets the tasks: `seen` holds
/// those met so far, `pending` those still to be entered, the next one first.
/// A task that was met before is passed over; a new one is recorded, and
/// its dependencies are entered before the rest of `pending`.
pub open spec fn visit(g: GraphView, pending: Seq<TaskId>, seen: Seq<TaskId>) -> Seq<TaskId>
    decreases unseen(g, seen), pending.len(),
    when g.dom().finite()
    via visit_decreases
{
    if pending.len() == 0 {
        seen
    } else {
        let id = pending.first();
        let rest = pending.drop_first();
        if seen.contains(id) || !g.dom().contains(id) {
            visit(g, rest, seen)
        } else {
            visit(g, g[id].dependencies + rest, seen.push(id))
        }
    }
}

#[via_fn]
proof fn visit_decreases(g: GraphView, pending: Seq<TaskId>, seen: Seq<TaskId>) {
    if pending.len() > 0 {
        let id = pending.first();
        if !(seen.contains(id) || !g.dom().contains(id)) {
            lemma_unseen_less(g, seen, id);
        }
    }
}

/// The test that a selected task meets.
pub open spec fn is_selected() -> spec_fn(TaskView) -> bool {
    |task: TaskView| task.status == TaskStatus::Selected
}

/// Every selected task, in ascending order of handle.
pub open spec fn selected_handles(g: GraphView) -> Seq<TaskId> {
    matching(g, is_selected())
}

/// The todo list before any filter: what a walk from the selected tasks
/// meets, in the order in which it meets it.
pub open spec fn closure_of_selected(g: GraphView) -> Seq<TaskId> {
    visit(g, selected_handles(g), Seq::empty())
}

/// The marked slots are those of the handles in `seen`.
pub open spec fn marks_match(marks: Seq<bool>, seen: Seq<TaskId>) -> bool {
    forall|k: TaskId| marked(marks, k) <==> #[trigger] seen.contains(k)
}

impl Graph {
    /// Every selected task and every task that one of them depends on,
    /// directly or through others: each once, a task before its
    /// dependencies, the selected tasks taken in ascending order of handle.
    pub fn traverse_selected(&self) -> (found: Vec<(TaskId, &Task)>)
        requires
            self.wf(),
        ensures
            handles_of(found@) == closure_of_selected(self@),
            entries_match(self@, found@),
            handles_of(found@).no_duplicates(),
    {
        proof {
            lemma_closure_of_selected(self@);
        }
        let mut found: Vec<(TaskId, &Task)> = Vec::new();
        let bound = slab_capacity(&self.tasks);
        let mut visited = vec![false; bound];
        proof {
            lemma_matching_bound(self@, is_selected(), 0, bound as nat, handle_limit());
            assert(handles_of(found@) =~= Seq::empty());
        }
        for k in 0..bound
            invariant
                self.wf(),
                visited@.len() == bound,
                marks_cover(self@, visited@),
                marks_match(visited@, handles_of(found@)),
                entries_match(self@, found@),
                visit(
                    self@,
                    matching_between(self@, is_selected(), k as nat, bound as nat),
                    handles_of(found@),
                ) == closure_of_selected(self@),
        {
            match slab_get(&self.tasks, k) {
                Some(task) => {
                    if task.status == TaskStatus::Selected {
                        let ghost rest = matching_between(
                            self@,
                            is_selected(),
                            (k + 1) as nat,
                            bound as nat,
                        );
                        assert(matching_between(self@, is_selected(), k as nat, bound as nat)
                            == seq![k] + rest);
                        self.traverse(k, &mut visited, &mut found, Ghost(rest));
                    }
                },
                None => {},
            }
        }
        found
    }

    /// Enters the task under `id`, unless the walk has met it before:
    /// records it, then enters each of its dependencies in turn.
    fn traverse<'a>(
        &'a self,
        id: TaskId,
        visited: &mut Vec<bool>,
        found: &mut Vec<(TaskId, &'a Task)>,
        Ghost(rest): Ghost<Seq<TaskId>>,
    )
        requires
            self.wf(),
            self@.dom().contains(id),
            marks_cover(self@, old(visited)@),
            marks_match(old(visited)@, handles_of(old(found)@)),
            entries_match(self@, old(found)@),
        ensures
            marks_grow(old(visited)@, final(visited)@),
            marks_match(final(visited)@, handles_of(final(found)@)),
            entries_match(self@, final(found)@),
            visit(self@, seq![id] + rest, handles_of(old(found)@)) == visit(
                self@,
                rest,
                handles_of(final(found)@),
            ),
        decreases unmarked_count(old(visited)@),
    {
        let ghost g = self@;
        let ghost seen = handles_of(found@);
        let ghost entry = visited@;
        proof {
            assert((seq![id] + rest).first() == id);
            assert((seq![id] + rest).drop_first() =~= rest);
        }
        if visited[id] {
            assert(seen.contains(id));
            return ;
        }
        assert(!seen.contains(id));
        visited.set(id, true);
        let task = slab_get(&self.tasks, id).unwrap();
        found.push((id, task));
        let ghost base = visited@;
        let count = task.dependencies.len();
        proof {
            lemma_unmarked_mark(entry, id as int);
            assert(handles_of(found@) =~= seen.push(id));
            assert(task.dependencies@.skip(0) =~= task.dependencies@);
            assert forall|k: TaskId| marked(visited@, k) <==> #[trigger] handles_of(
                found@,
            ).contains(k) by {
                if seen.contains(k) {
                    let i = choose|i: int| 0 <= i < seen.len() && seen[i] == k;
                    assert(seen.push(id)[i] == k);
                }
                if seen.push(id).contains(k) && k != id {
                    let i = choose|i: int| 0 <= i < seen.push(id).len() && seen.push(id)[i] == k;
                    assert(seen[i] == k);
                }
                assert(seen.push(id)[seen.len() as int] == id);
            }
        }
        for i in 0..count
            invariant
                self.wf(),
                g == self@,
                g.dom().contains(id),
                task@ == g[id],
                count == task.dependencies@.len(),
                entry == old(visited)@,
                seen == handles_of(old(found)@),
                unmarked_count(base) < unmarked_count(entry),
                marks_grow(entry, base),
                marks_grow(base, visited@),
                marks_cover(g, visited@),
                marks_match(visited@, handles_of(found@)),
                entries_match(g, found@),
                visit(g, task.dependencies@.skip(i as int) + rest, handles_of(found@)) == visit(
                    g,
                    seq![id] + rest,
                    seen,
                ),
        {
            let next = task.dependencies[i];
            let ghost later = task.dependencies@.skip(i + 1) + rest;
            proof {
                assert(has_edge(g, id, next)) by {
                    assert(task.dependencies@[i as int] == next);
                }
                assert(task.dependencies@.skip(i as int) + rest =~= seq![next] + later);
                lemma_unmarked_grow(base, visited@);
            }
            let ghost earlier = visited@;
            self.traverse(next, visited, found, Ghost(later));
            proof {
                assert forall|j: int| 0 <= j < base.len() && base[j] implies #[trigger] visited@[j] by {
                    assert(earlier[j]);
                }
            }
        }
        proof {
            assert(task.dependencies@.skip(count as int) + rest =~= rest);
            assert forall|j: int| 0 <= j < entry.len() && entry[j] implies #[trigger] visited@[j] by {
                assert(base[j]);
            }
        }
    }
}

} // verus!
