//! Walking the arena in the order of its slots, and picking the tasks that
//! meet a test.

use vstd::prelude::*;
use crate::arena::{slab_capacity, slab_get};
use crate::graph::Graph;
use crate::relation::GraphView;
use crate::task::{Task, TaskId, TaskView};

verus! {

/// One above the largest handle there can be.
pub open spec fn handle_limit() -> nat {
    usize::MAX as nat + 1
}

/// The test that every task meets.
pub open spec fn any_task() -> spec_fn(TaskView) -> bool {
    |task: TaskView| true
}

/// The tasks that meet `keep` and have a handle from `lo` up to, not
/// including, `hi`: their handles in ascending order.
pub open spec fn matching_between(
    g: GraphView,
    keep: spec_fn(TaskView) -> bool,
    lo: nat,
    hi: nat,
) -> Seq<TaskId>
    decreases hi - lo,
{
    if lo >= hi {
        Seq::empty()
    } else if g.dom().contains(lo as TaskId) && keep(g[lo as TaskId]) {
        seq![lo as TaskId] + matching_between(g, keep, lo + 1, hi)
    } else {
        matching_between(g, keep, lo + 1, hi)
    }
}

/// Every task that meets `keep`, in ascending order of handle.
pub open spec fn matching(g: GraphView, keep: spec_fn(TaskView) -> bool) -> Seq<TaskId> {
    matching_between(g, keep, 0, handle_limit())
}

/// The handle of every task, in ascending order.
pub open spec fn handles(g: GraphView) -> Seq<TaskId> {
    matching(g, any_task())
}

/// The handles of a list of entries.
pub open spec fn handles_of(entries: Seq<(TaskId, &Task)>) -> Seq<TaskId> {
    Seq::new(entries.len(), |i: int| entries[i].0)
}

/// Each entry pairs the handle of a present task with that task.
pub open spec fn entries_match(g: GraphView, entries: Seq<(TaskId, &Task)>) -> bool {
    forall|i: int|
        0 <= i < entries.len() ==> g.dom().contains((#[trigger] entries[i]).0) && entries[i].1@
            == g[entries[i].0]
}

/// Where no task has a handle from `lo` on, none is picked from there.
pub proof fn lemma_none_beyond(g: GraphView, keep: spec_fn(TaskView) -> bool, lo: nat, hi: nat)
    requires
        forall|k: TaskId| g.dom().contains(k) ==> k < lo,
        hi <= handle_limit(),
    ensures
        matching_between(g, keep, lo, hi) == Seq::<TaskId>::empty(),
    decreases hi - lo,
{
    if lo < hi {
        lemma_none_beyond(g, keep, lo + 1, hi);
    }
}

/// What is picked from `lo` on is the same under any two bounds that lie
/// above every handle in use.
pub proof fn lemma_matching_bound(
    g: GraphView,
    keep: spec_fn(TaskView) -> bool,
    lo: nat,
    bound: nat,
    hi: nat,
)
    requires
        forall|k: TaskId| g.dom().contains(k) ==> k < bound,
        bound <= hi <= handle_limit(),
    ensures
        matching_between(g, keep, lo, bound) == matching_between(g, keep, lo, hi),
    decreases hi - lo,
{
    if lo >= bound {
        lemma_none_beyond(g, keep, lo, hi);
    } else {
        lemma_matching_bound(g, keep, lo + 1, bound, hi);
    }
}

/// Every handle picked names a present task that meets the test, and lies
/// within the bounds.
pub proof fn lemma_matching_members(
    g: GraphView,
    keep: spec_fn(TaskView) -> bool,
    lo: nat,
    hi: nat,
)
    requires
        hi <= handle_limit(),
    ensures
        forall|k: TaskId| #[trigger]
            matching_between(g, keep, lo, hi).contains(k) <==> lo <= k < hi && g.dom().contains(k)
                && keep(g[k]),
    decreases hi - lo,
{
    let picked = matching_between(g, keep, lo, hi);
    if lo < hi {
        let rest = matching_between(g, keep, lo + 1, hi);
        lemma_matching_members(g, keep, lo + 1, hi);
        let first = lo as TaskId;
        assert forall|k: TaskId| #[trigger]
            picked.contains(k) <==> lo <= k < hi && g.dom().contains(k) && keep(g[k]) by {
            if g.dom().contains(first) && keep(g[first]) {
                assert(picked == seq![first] + rest);
                assert(picked[0] == first);
                if rest.contains(k) {
                    let i = choose|i: int| 0 <= i < rest.len() && rest[i] == k;
                    assert(picked[i + 1] == k);
                }
                if picked.contains(k) {
                    let i = choose|i: int| 0 <= i < picked.len() && picked[i] == k;
                    if i > 0 {
                        assert(rest[i - 1] == k);
                    }
                }
            }
        }
    }
}

impl Graph {
    /// Every task with its handle, in ascending order of handle.
    pub fn iter(&self) -> (entries: Vec<(TaskId, &Task)>)
        ensures
            handles_of(entries@) == handles(self@),
            entries_match(self@, entries@),
    {
        let mut entries: Vec<(TaskId, &Task)> = Vec::new();
        let bound = slab_capacity(&self.tasks);
        proof {
            lemma_matching_bound(self@, any_task(), 0, bound as nat, handle_limit());
            assert(handles_of(entries@) =~= Seq::empty());
        }
        for k in 0..bound
            invariant
                entries_match(self@, entries@),
                handles_of(entries@) + matching_between(self@, any_task(), k as nat, bound as nat)
                    == handles(self@),
        {
            let ghost earlier = handles_of(entries@);
            let ghost rest = matching_between(self@, any_task(), (k + 1) as nat, bound as nat);
            match slab_get(&self.tasks, k) {
                Some(task) => {
                    entries.push((k, task));
                    proof {
                        assert(handles_of(entries@) =~= earlier.push(k));
                        assert(earlier.push(k) + rest =~= earlier + (seq![k] + rest));
                    }
                },
                None => {},
            }
        }
        proof {
            assert(handles_of(entries@) + Seq::<TaskId>::empty() =~= handles_of(entries@));
        }
        entries
    }
}

} // verus!
