//! The views that a front end shows: the todo list, ordered by what can be
//! done now and by the manual order hint, and the plain listing, ordered by
//! status.

use vstd::prelude::*;
use crate::arena::slab_get;
use crate::error::GraphError;
use crate::graph::Graph;
use crate::listing::{entries_match, handles, handles_of};
use crate::relation::GraphView;
use crate::task::{Task, TaskId, TaskOrder, TaskStatus};
use crate::traverse::closure_of_selected;

verus! {

/// The place of a manual order hint among all hints: explicit positions by
/// their number, and "last" behind every one of them.
pub open spec fn order_rank(order: TaskOrder) -> int {
    match order {
        TaskOrder::Order(position) => position as int,
        TaskOrder::Last => i32::MAX as int + 1,
    }
}

/// The rank of each task by its manual order hint.
pub open spec fn by_order(g: GraphView) -> spec_fn(TaskId) -> int {
    |id: TaskId| order_rank(g[id].order)
}

/// The test that a task meets which can be done now: it depends on no
/// task. Whether the tasks it depends on are finished does not count here;
/// that is what [`crate::model::has_met`] asks.
pub open spec fn is_doable(g: GraphView) -> spec_fn(TaskId) -> bool {
    |id: TaskId| g[id].dependencies.len() == 0
}

/// The test that a task meets which waits for a dependency: it depends on
/// some task.
pub open spec fn is_blocked(g: GraphView) -> spec_fn(TaskId) -> bool {
    |id: TaskId| g[id].dependencies.len() != 0
}

/// The test that a task with the given status meets.
pub open spec fn has_status(g: GraphView, status: TaskStatus) -> spec_fn(TaskId) -> bool {
    |id: TaskId| g[id].status == status
}

/// The sorted list with `x` put in: behind every entry whose rank is not
/// above that of `x`, before the others.
pub open spec fn insert_ranked(sorted: Seq<TaskId>, x: TaskId, rank: spec_fn(TaskId) -> int) -> Seq<
    TaskId,
>
    decreases sorted.len(),
{
    if sorted.len() == 0 || rank(sorted.last()) <= rank(x) {
        sorted.push(x)
    } else {
        insert_ranked(sorted.drop_last(), x, rank).push(sorted.last())
    }
}

/// The list in ascending order of rank; entries of the same rank keep the
/// order they had.
pub open spec fn sort_ranked(list: Seq<TaskId>, rank: spec_fn(TaskId) -> int) -> Seq<TaskId>
    decreases list.len(),
{
    if list.len() == 0 {
        list
    } else {
        insert_ranked(sort_ranked(list.drop_last(), rank), list.last(), rank)
    }
}

/// No entry has a rank above that of a later entry.
pub open spec fn is_ranked(list: Seq<TaskId>, rank: spec_fn(TaskId) -> int) -> bool {
    forall|i: int, j: int| 0 <= i < j < list.len() ==> rank(list[i]) <= rank(list[j])
}

/// The todo list: what the walk from the selected tasks meets, the tasks
/// without dependencies first and, where `all` is set, those with
/// dependencies behind them; each group by manual order, ties in the order
/// of the walk.
pub open spec fn todo_order(g: GraphView, all: bool) -> Seq<TaskId> {
    let walk = closure_of_selected(g);
    let ready = sort_ranked(walk.filter(is_doable(g)), by_order(g));
    if all {
        ready + sort_ranked(walk.filter(is_blocked(g)), by_order(g))
    } else {
        ready
    }
}

/// The list with the selected tasks first, then the deselected, then the
/// finished, each group in the order it had.
pub open spec fn by_selection(g: GraphView, list: Seq<TaskId>) -> Seq<TaskId> {
    list.filter(has_status(g, TaskStatus::Selected)) + list.filter(
        has_status(g, TaskStatus::Deselected),
    ) + list.filter(has_status(g, TaskStatus::Finished))
}

/// Where `x` goes: the position `at` behind which every rank is above that
/// of `x`, and before which the nearest is not.
pub proof fn lemma_insert_ranked_at(
    sorted: Seq<TaskId>,
    x: TaskId,
    rank: spec_fn(TaskId) -> int,
    at: int,
)
    requires
        0 <= at <= sorted.len(),
        forall|j: int| at <= j < sorted.len() ==> rank(sorted[j]) > rank(x),
        at == 0 || rank(sorted[at - 1]) <= rank(x),
    ensures
        insert_ranked(sorted, x, rank) == sorted.insert(at, x),
    decreases sorted.len(),
{
    if at == sorted.len() {
        assert(sorted.push(x) =~= sorted.insert(at, x));
    } else {
        let front = sorted.drop_last();
        assert(rank(sorted[sorted.len() - 1]) > rank(x));
        lemma_insert_ranked_at(front, x, rank, at);
        assert(front.insert(at, x).push(sorted.last()) =~= sorted.insert(at, x));
    }
}

/// There is a position at which `x` goes, as [`lemma_insert_ranked_at`]
/// describes it.
pub proof fn lemma_insert_ranked_position(
    sorted: Seq<TaskId>,
    x: TaskId,
    rank: spec_fn(TaskId) -> int,
) -> (at: int)
    ensures
        0 <= at <= sorted.len(),
        forall|j: int| at <= j < sorted.len() ==> rank(sorted[j]) > rank(x),
        at == 0 || rank(sorted[at - 1]) <= rank(x),
        insert_ranked(sorted, x, rank) == sorted.insert(at, x),
    decreases sorted.len(),
{
    if sorted.len() == 0 || rank(sorted.last()) <= rank(x) {
        let at = sorted.len() as int;
        lemma_insert_ranked_at(sorted, x, rank, at);
        at
    } else {
        let at = lemma_insert_ranked_position(sorted.drop_last(), x, rank);
        assert forall|j: int| at <= j < sorted.len() implies rank(sorted[j]) > rank(x) by {
            if j < sorted.len() - 1 {
                assert(sorted.drop_last()[j] == sorted[j]);
            }
        }
        if at > 0 {
            assert(sorted.drop_last()[at - 1] == sorted[at - 1]);
        }
        lemma_insert_ranked_at(sorted, x, rank, at);
        at
    }
}

/// Sorting gives a list in ascending order of rank that holds what the
/// list held, each entry as often.
pub proof fn lemma_sort_ranked(list: Seq<TaskId>, rank: spec_fn(TaskId) -> int)
    ensures
        is_ranked(sort_ranked(list, rank), rank),
        sort_ranked(list, rank).to_multiset() == list.to_multiset(),
        sort_ranked(list, rank).len() == list.len(),
    decreases list.len(),
{
    broadcast use vstd::seq_lib::group_to_multiset_ensures;

    if list.len() > 0 {
        let front = list.drop_last();
        let x = list.last();
        let sorted = sort_ranked(front, rank);
        lemma_sort_ranked(front, rank);
        let at = lemma_insert_ranked_position(sorted, x, rank);
        let after = sorted.insert(at, x);
        assert forall|i: int, j: int| 0 <= i < j < after.len() implies rank(after[i]) <= rank(
            after[j],
        ) by {
            if at > 0 && i < at {
                assert(rank(sorted[i]) <= rank(sorted[at - 1]));
            }
        }
        assert(list =~= front.push(x));
    }
}

/// Whether the first hint places a task behind the second.
pub fn comes_after(first: TaskOrder, second: TaskOrder) -> (after: bool)
    ensures
        after == (order_rank(first) > order_rank(second)),
{
    match first {
        TaskOrder::Last => match second {
            TaskOrder::Last => false,
            TaskOrder::Order(_) => true,
        },
        TaskOrder::Order(a) => match second {
            TaskOrder::Last => false,
            TaskOrder::Order(b) => a > b,
        },
    }
}

/// The entries in ascending order of their manual order hint; entries with
/// the same hint keep the order they had.
pub fn sort_by_order<'a>(entries: &Vec<(TaskId, &'a Task)>) -> (sorted: Vec<(TaskId, &'a Task)>)
    ensures
        forall|g: GraphView| #[trigger]
            entries_match(g, entries@) ==> handles_of(sorted@) == sort_ranked(
                handles_of(entries@),
                by_order(g),
            ) && entries_match(g, sorted@),
        sorted@.to_multiset() == entries@.to_multiset(),
{
    broadcast use vstd::seq_lib::group_to_multiset_ensures;

    let mut sorted: Vec<(TaskId, &'a Task)> = Vec::new();
    let count = entries.len();
    proof {
        assert(entries@.take(0) =~= Seq::empty());
        assert(handles_of(entries@.take(0)) =~= Seq::empty());
        assert(handles_of(sorted@) =~= Seq::empty());
    }
    for i in 0..count
        invariant
            count == entries@.len(),
            sorted@.to_multiset() == entries@.take(i as int).to_multiset(),
            forall|g: GraphView| #[trigger]
                entries_match(g, entries@) ==> handles_of(sorted@) == sort_ranked(
                    handles_of(entries@.take(i as int)),
                    by_order(g),
                ) && entries_match(g, sorted@),
    {
        let entry = entries[i];
        let mut at = sorted.len();
        while at > 0 && comes_after(sorted[at - 1].1.order, entry.1.order)
            invariant
                0 <= at <= sorted@.len(),
                forall|j: int|
                    at <= j < sorted@.len() ==> order_rank(sorted@[j].1.order) > order_rank(
                        entry.1.order,
                    ),
            decreases at,
        {
            at -= 1;
        }
        let ghost before = sorted@;
        sorted.insert(at, entry);
        proof {
            assert(entries@.take(i + 1) =~= entries@.take(i as int).push(entry));
            assert(sorted@ == before.insert(at as int, entry));
            vstd::seq_lib::to_multiset_insert(before, at as int, entry);
            vstd::seq_lib::to_multiset_build(entries@.take(i as int), entry);
            assert forall|g: GraphView| #[trigger] entries_match(g, entries@) implies handles_of(
                sorted@,
            ) == sort_ranked(handles_of(entries@.take(i + 1)), by_order(g)) && entries_match(
                g,
                sorted@,
            ) by {
                let rank = by_order(g);
                let earlier = handles_of(entries@.take(i as int));
                assert(entries_match(g, before));
                assert(g.dom().contains(entries@[i as int].0));
                assert(handles_of(entries@.take(i + 1)).drop_last() =~= earlier);
                assert(handles_of(entries@.take(i + 1)).last() == entry.0);
                assert forall|j: int| at <= j < handles_of(before).len() implies rank(
                    handles_of(before)[j],
                ) > rank(entry.0) by {
                    assert(g.dom().contains(before[j].0));
                }
                if at > 0 {
                    assert(g.dom().contains(before[at - 1].0));
                    assert(rank(handles_of(before)[at - 1]) <= rank(entry.0));
                }
                lemma_insert_ranked_at(handles_of(before), entry.0, rank, at as int);
                assert(handles_of(sorted@) =~= handles_of(before).insert(at as int, entry.0));
                assert forall|j: int| 0 <= j < sorted@.len() implies g.dom().contains(
                    (#[trigger] sorted@[j]).0,
                ) && sorted@[j].1@ == g[sorted@[j].0] by {
                    if j < at {
                        assert(sorted@[j] == before[j]);
                    } else if j > at {
                        assert(sorted@[j] == before[j - 1]);
                    }
                }
            }
        }
    }
    proof {
        assert(entries@.take(count as int) =~= entries@);
    }
    sorted
}

impl Graph {
    /// Whether the task under `id` can be done now: it depends on no task.
    pub fn doable(&self, id: TaskId) -> (answer: Result<bool, GraphError>)
        ensures
            match answer {
                Ok(ready) => self@.dom().contains(id) && ready == (self@[id].dependencies.len()
                    == 0),
                Err(e) => e == GraphError::TaskNotFound && !self@.dom().contains(id),
            },
    {
        match slab_get(&self.tasks, id) {
            Some(task) => Ok(task.doable()),
            None => Err(GraphError::TaskNotFound),
        }
    }

    /// The entries that can be done now, or those that cannot, as `ready`
    /// says, in the order they have.
    fn keep_doable<'a>(&self, entries: &Vec<(TaskId, &'a Task)>, ready: bool) -> (kept: Vec<
        (TaskId, &'a Task),
    >)
        requires
            entries_match(self@, entries@),
        ensures
            entries_match(self@, kept@),
            handles_of(kept@) == handles_of(entries@).filter(
                if ready {
                    is_doable(self@)
                } else {
                    is_blocked(self@)
                },
            ),
    {
        let mut kept: Vec<(TaskId, &'a Task)> = Vec::new();
        let count = entries.len();
        let ghost keep = if ready {
            is_doable(self@)
        } else {
            is_blocked(self@)
        };
        let ghost all = handles_of(entries@);
        proof {
            reveal(Seq::filter);
            assert(all.take(0) =~= Seq::empty());
            assert(handles_of(kept@) =~= Seq::empty());
        }
        for i in 0..count
            invariant
                count == entries@.len(),
                all == handles_of(entries@),
                keep == if ready {
                    is_doable(self@)
                } else {
                    is_blocked(self@)
                },
                entries_match(self@, entries@),
                entries_match(self@, kept@),
                handles_of(kept@) == all.take(i as int).filter(keep),
        {
            let entry = entries[i];
            let ghost before = handles_of(kept@);
            proof {
                assert(all.take(i + 1) =~= all.take(i as int).push(entry.0));
                all.take(i as int).lemma_filter_push(entry.0, keep);
            }
            if entry.1.doable() == ready {
                kept.push(entry);
                assert(handles_of(kept@) =~= before.push(entry.0));
            }
        }
        proof {
            assert(all.take(count as int) =~= all);
        }
        kept
    }

    /// The entries whose task has the given status, in the order they have.
    fn keep_status<'a>(&self, entries: &Vec<(TaskId, &'a Task)>, status: TaskStatus) -> (kept: Vec<
        (TaskId, &'a Task),
    >)
        requires
            entries_match(self@, entries@),
        ensures
            entries_match(self@, kept@),
            handles_of(kept@) == handles_of(entries@).filter(has_status(self@, status)),
    {
        let mut kept: Vec<(TaskId, &'a Task)> = Vec::new();
        let count = entries.len();
        let ghost keep = has_status(self@, status);
        let ghost all = handles_of(entries@);
        proof {
            reveal(Seq::filter);
            assert(all.take(0) =~= Seq::empty());
            assert(handles_of(kept@) =~= Seq::empty());
        }
        for i in 0..count
            invariant
                count == entries@.len(),
                all == handles_of(entries@),
                keep == has_status(self@, status),
                entries_match(self@, entries@),
                entries_match(self@, kept@),
                handles_of(kept@) == all.take(i as int).filter(keep),
        {
            let entry = entries[i];
            let ghost before = handles_of(kept@);
            proof {
                assert(all.take(i + 1) =~= all.take(i as int).push(entry.0));
                all.take(i as int).lemma_filter_push(entry.0, keep);
            }
            if entry.1.status == status {
                kept.push(entry);
                assert(handles_of(kept@) =~= before.push(entry.0));
            }
        }
        proof {
            assert(all.take(count as int) =~= all);
        }
        kept
    }

    /// The todo list: see [`todo_order`].
    pub fn todo_list(&self, all: bool) -> (entries: Vec<(TaskId, &Task)>)
        requires
            self.wf(),
        ensures
            handles_of(entries@) == todo_order(self@, all),
            entries_match(self@, entries@),
    {
        let walk = self.traverse_selected();
        let ready = self.keep_doable(&walk, true);
        let mut entries = sort_by_order(&ready);
        assert(entries_match(self@, ready@));
        if all {
            let blocked = self.keep_doable(&walk, false);
            let mut waiting = sort_by_order(&blocked);
            assert(entries_match(self@, blocked@));
            let ghost first = entries@;
            let ghost second = waiting@;
            entries.append(&mut waiting);
            assert(handles_of(entries@) =~= handles_of(first) + handles_of(second));
        }
        entries
    }

    /// What the walk from the selected tasks meets, each task with the
    /// answer whether it can be done now: those that can first, the others
    /// behind them, each group in the order of the walk.
    pub fn task_infos(&self) -> (infos: Vec<(TaskId, bool)>)
        requires
            self.wf(),
        ensures
            Seq::new(infos@.len(), |i: int| infos@[i].0) == closure_of_selected(self@).filter(
                is_doable(self@),
            ) + closure_of_selected(self@).filter(is_blocked(self@)),
            forall|i: int|
                0 <= i < infos@.len() ==> (#[trigger] infos@[i]).1 == is_doable(self@)(
                    infos@[i].0,
                ),
    {
        let walk = self.traverse_selected();
        let ready = self.keep_doable(&walk, true);
        let blocked = self.keep_doable(&walk, false);
        let ghost all = handles_of(walk@);
        let ghost first = all.filter(is_doable(self@));
        let ghost second = all.filter(is_blocked(self@));
        let mut infos: Vec<(TaskId, bool)> = Vec::new();
        let count = ready.len();
        for i in 0..count
            invariant
                count == ready@.len(),
                infos@.len() == i,
                forall|j: int| 0 <= j < i ==> (#[trigger] infos@[j]) == (ready@[j].0, true),
        {
            infos.push((ready[i].0, true));
        }
        let more = blocked.len();
        for i in 0..more
            invariant
                more == blocked@.len(),
                count == ready@.len(),
                infos@.len() == count + i,
                forall|j: int| 0 <= j < count ==> (#[trigger] infos@[j]) == (ready@[j].0, true),
                forall|j: int|
                    count <= j < count + i ==> (#[trigger] infos@[j]) == (
                        blocked@[j - count].0,
                        false,
                    ),
        {
            infos.push((blocked[i].0, false));
        }
        proof {
            assert(Seq::new(infos@.len(), |i: int| infos@[i].0) =~= first + second) by {
                assert forall|j: int| 0 <= j < infos@.len() implies infos@[j].0 == (first
                    + second)[j] by {
                    if j < count {
                        assert(handles_of(ready@)[j] == ready@[j].0);
                    } else {
                        assert(handles_of(blocked@)[j - count] == blocked@[j - count].0);
                    }
                }
            }
            assert forall|i: int| 0 <= i < infos@.len() implies (#[trigger] infos@[i]).1
                == is_doable(self@)(infos@[i].0) by {
                if i < count {
                    assert(handles_of(ready@)[i] == ready@[i].0);
                    all.lemma_filter_pred(is_doable(self@), i);
                } else {
                    assert(handles_of(blocked@)[i - count] == blocked@[i - count].0);
                    all.lemma_filter_pred(is_blocked(self@), i - count);
                }
            }
        }
        infos
    }

    /// The entries with the selected tasks first, then the deselected,
    /// then the finished, each group in the order it had.
    pub fn sort_by_selection<'a>(&self, entries: &Vec<(TaskId, &'a Task)>) -> (sorted: Vec<
        (TaskId, &'a Task),
    >)
        requires
            entries_match(self@, entries@),
        ensures
            handles_of(sorted@) == by_selection(self@, handles_of(entries@)),
            entries_match(self@, sorted@),
    {
        let mut sorted = self.keep_status(entries, TaskStatus::Selected);
        let mut deselected = self.keep_status(entries, TaskStatus::Deselected);
        let mut finished = self.keep_status(entries, TaskStatus::Finished);
        let ghost first = sorted@;
        let ghost second = deselected@;
        let ghost third = finished@;
        sorted.append(&mut deselected);
        sorted.append(&mut finished);
        assert(handles_of(sorted@) =~= handles_of(first) + handles_of(second) + handles_of(third));
        sorted
    }

    /// The plain listing: every task, the selected first, then the
    /// deselected, then the finished, each group in ascending order of
    /// handle.
    pub fn list(&self) -> (entries: Vec<(TaskId, &Task)>)
        ensures
            handles_of(entries@) == by_selection(self@, handles(self@)),
            entries_match(self@, entries@),
    {
        let all = self.iter();
        self.sort_by_selection(&all)
    }
}

} // verus!
