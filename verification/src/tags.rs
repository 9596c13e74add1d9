//! Free-text labels on tasks: each task holds its tags once each, in the
//! order in which they were added.

use vstd::prelude::*;
use crate::arena::{slab_capacity, slab_get, slab_get_mut};
use crate::error::GraphError;
use crate::graph::Graph;
use crate::handles::{
    lemma_with_handle_no_duplicates, lemma_without_no_duplicates, lemma_without_push, with_handle,
    with_handles, without,
};
use crate::listing::{
    entries_match, handle_limit, handles_of, lemma_matching_bound, matching, matching_between,
};
use crate::model::{finished_kept, lemma_task_edit_wf, with_task};
use crate::relation::GraphView;
use crate::task::{texts, Task, TaskId, TaskView};

verus! {

/// The task carries every tag of `wanted`.
pub open spec fn has_all(tags: Seq<Seq<char>>, wanted: Seq<Seq<char>>) -> bool {
    forall|i: int| 0 <= i < wanted.len() ==> tags.contains(#[trigger] wanted[i])
}

/// The test that a task with every tag of `wanted` meets.
pub open spec fn tagged_with(wanted: Seq<Seq<char>>) -> spec_fn(TaskView) -> bool {
    |task: TaskView| has_all(task.tags, wanted)
}

/// The tags of the tasks with a handle from `lo` up to, not including,
/// `hi`, task after task in ascending order of handle.
pub open spec fn tags_between(g: GraphView, lo: nat, hi: nat) -> Seq<Seq<char>>
    decreases hi - lo,
{
    if lo >= hi {
        Seq::empty()
    } else if g.dom().contains(lo as TaskId) {
        g[lo as TaskId].tags + tags_between(g, lo + 1, hi)
    } else {
        tags_between(g, lo + 1, hi)
    }
}

/// Every tag in use, once, in the order in which a walk over the tasks
/// first meets it.
pub open spec fn all_tags(g: GraphView) -> Seq<Seq<char>> {
    with_handles(Seq::empty(), tags_between(g, 0, handle_limit()))
}

/// Beyond every handle in use there are no tags.
pub proof fn lemma_tags_bound(g: GraphView, lo: nat, bound: nat, hi: nat)
    requires
        forall|k: TaskId| g.dom().contains(k) ==> k < bound,
        bound <= hi <= handle_limit(),
    ensures
        tags_between(g, lo, bound) == tags_between(g, lo, hi),
    decreases hi - lo,
{
    if lo < hi {
        lemma_tags_bound(g, lo + 1, bound, hi);
        if lo >= bound {
            assert(!g.dom().contains(lo as TaskId));
        }
    }
}

/// Extending a list by two lists in turn is extending it by both at once.
pub proof fn lemma_with_handles_add<A>(list: Seq<A>, first: Seq<A>, second: Seq<A>)
    ensures
        with_handles(with_handles(list, first), second) == with_handles(list, first + second),
    decreases second.len(),
{
    if second.len() == 0 {
        assert(first + second =~= first);
    } else {
        lemma_with_handles_add(list, first, second.drop_last());
        assert((first + second).drop_last() =~= first + second.drop_last());
        assert((first + second).last() == second.last());
    }
}

/// Whether the list holds a string with the characters of `text`.
pub fn contains_text(list: &Vec<String>, text: &String) -> (found: bool)
    ensures
        found == texts(list@).contains(text@),
{
    let count = list.len();
    for i in 0..count
        invariant
            count == list@.len(),
            forall|j: int| 0 <= j < i ==> texts(list@)[j] != text@,
    {
        if list[i] == *text {
            assert(texts(list@)[i as int] == text@);
            return true;
        }
    }
    false
}

impl Task {
    /// The task's tags, in the order in which they were added.
    pub fn tags(&self) -> (tags: &[String])
        ensures
            texts(tags@) == self@.tags,
    {
        self.tags.as_slice()
    }

    /// Adds a tag, unless the task has it already. Says whether it was
    /// added.
    pub fn add_tag(&mut self, tag: String) -> (added: bool)
        ensures
            added == !old(self)@.tags.contains(tag@),
            final(self)@ == (TaskView { tags: with_handle(old(self)@.tags, tag@), ..old(self)@ }),
    {
        if contains_text(&self.tags, &tag) {
            return false;
        }
        let ghost before = self.tags@;
        self.tags.push(tag);
        assert(texts(self.tags@) =~= texts(before).push(tag@));
        true
    }

    /// Takes a tag off the task. Says whether the task had it.
    pub fn remove_tag(&mut self, tag: &String) -> (removed: bool)
        ensures
            removed == old(self)@.tags.contains(tag@),
            final(self)@ == (TaskView { tags: without(old(self)@.tags, tag@), ..old(self)@ }),
    {
        let mut kept: Vec<String> = Vec::new();
        let count = self.tags.len();
        let mut removed = false;
        proof {
            reveal(Seq::filter);
            assert(texts(self.tags@).take(0) =~= Seq::empty());
            assert(without(texts(self.tags@).take(0), tag@) =~= Seq::empty());
        }
        for i in 0..count
            invariant
                count == self.tags@.len(),
                *self == *old(self),
                texts(kept@) == without(texts(self.tags@).take(i as int), tag@),
                removed == texts(self.tags@).take(i as int).contains(tag@),
        {
            let ghost all = texts(self.tags@);
            let ghost kept_before = kept@;
            proof {
                let shorter = all.take(i as int);
                let longer = all.take(i + 1);
                assert(longer =~= shorter.push(all[i as int]));
                lemma_without_push(shorter, all[i as int], tag@);
                assert(longer[i as int] == all[i as int]);
                if shorter.contains(tag@) {
                    let j = choose|j: int| 0 <= j < shorter.len() && shorter[j] == tag@;
                    assert(longer[j] == tag@);
                }
                if longer.contains(tag@) && all[i as int] != tag@ {
                    let j = choose|j: int| 0 <= j < longer.len() && longer[j] == tag@;
                    assert(shorter[j] == tag@);
                }
            }
            if self.tags[i] == *tag {
                removed = true;
            } else {
                let copy = self.tags[i].clone();
                kept.push(copy);
                assert(texts(kept@) =~= texts(kept_before).push(all[i as int]));
            }
        }
        assert(texts(self.tags@).take(count as int) =~= texts(self.tags@));
        self.tags = kept;
        removed
    }

    /// Whether the task carries every tag of `wanted`.
    pub fn has_tags(&self, wanted: &Vec<String>) -> (all: bool)
        ensures
            all == has_all(self@.tags, texts(wanted@)),
    {
        let count = wanted.len();
        for i in 0..count
            invariant
                count == wanted@.len(),
                forall|j: int| 0 <= j < i ==> self@.tags.contains(#[trigger] texts(wanted@)[j]),
        {
            if !contains_text(&self.tags, &wanted[i]) {
                assert(!self@.tags.contains(texts(wanted@)[i as int]));
                return false;
            }
        }
        true
    }
}

impl Graph {
    /// Adds a tag to the task under `id`, unless it has it already. Says
    /// whether it was added.
    pub fn add_tag(&mut self, id: TaskId, tag: String) -> (done: Result<bool, GraphError>)
        requires
            old(self).wf(),
        ensures
            final(self).wf(),
            finished_kept(old(self)@, final(self)@),
            match done {
                Ok(added) => old(self)@.dom().contains(id) && added == !old(
                    self,
                )@[id].tags.contains(tag@) && final(self)@ == with_task(
                    old(self)@,
                    id,
                    TaskView { tags: with_handle(old(self)@[id].tags, tag@), ..old(self)@[id] },
                ),
                Err(e) => e == GraphError::TaskNotFound && !old(self)@.dom().contains(id)
                    && final(self)@ == old(self)@,
            },
    {
        let ghost before = self@;
        let done = match slab_get_mut(&mut self.tasks, id) {
            Some(task) => Ok(task.add_tag(tag)),
            None => Err(GraphError::TaskNotFound),
        };
        proof {
            if before.dom().contains(id) {
                let edited = TaskView { tags: with_handle(before[id].tags, tag@), ..before[id] };
                assert(self@ =~= with_task(before, id, edited));
                assert(before[id].wf());
                lemma_with_handle_no_duplicates(before[id].tags, tag@);
                lemma_task_edit_wf(before, id, edited);
            } else {
                assert(self@ =~= before);
            }
        }
        done
    }

    /// Takes a tag off the task under `id`. Says whether the task had it.
    pub fn remove_tag(&mut self, id: TaskId, tag: &String) -> (done: Result<bool, GraphError>)
        requires
            old(self).wf(),
        ensures
            final(self).wf(),
            finished_kept(old(self)@, final(self)@),
            match done {
                Ok(removed) => old(self)@.dom().contains(id) && removed == old(
                    self,
                )@[id].tags.contains(tag@) && final(self)@ == with_task(
                    old(self)@,
                    id,
                    TaskView { tags: without(old(self)@[id].tags, tag@), ..old(self)@[id] },
                ),
                Err(e) => e == GraphError::TaskNotFound && !old(self)@.dom().contains(id)
                    && final(self)@ == old(self)@,
            },
    {
        let ghost before = self@;
        let done = match slab_get_mut(&mut self.tasks, id) {
            Some(task) => Ok(task.remove_tag(tag)),
            None => Err(GraphError::TaskNotFound),
        };
        proof {
            if before.dom().contains(id) {
                let edited = TaskView { tags: without(before[id].tags, tag@), ..before[id] };
                assert(self@ =~= with_task(before, id, edited));
                assert(before[id].wf());
                lemma_without_no_duplicates(before[id].tags, tag@);
                lemma_task_edit_wf(before, id, edited);
            } else {
                assert(self@ =~= before);
            }
        }
        done
    }

    /// Every tag that some task carries, each once, in the order in which
    /// a walk over the tasks first meets it.
    pub fn tags(&self) -> (found: Vec<String>)
        ensures
            texts(found@) == all_tags(self@),
    {
        let mut found: Vec<String> = Vec::new();
        let bound = slab_capacity(&self.tasks);
        let ghost limit = handle_limit();
        proof {
            lemma_tags_bound(self@, 0, bound as nat, limit);
            assert(texts(found@) =~= Seq::empty());
        }
        for k in 0..bound
            invariant
                limit == handle_limit(),
                with_handles(texts(found@), tags_between(self@, k as nat, bound as nat))
                    == all_tags(self@),
        {
            let ghost rest = tags_between(self@, (k + 1) as nat, bound as nat);
            match slab_get(&self.tasks, k) {
                Some(task) => {
                    let ghost earlier = texts(found@);
                    let count = task.tags.len();
                    proof {
                        assert(task@.tags.take(0) =~= Seq::empty());
                        lemma_with_handles_add(earlier, task@.tags, rest);
                    }
                    for i in 0..count
                        invariant
                            count == task.tags@.len(),
                            task@ == self@[k as TaskId],
                            texts(found@) == with_handles(earlier, task@.tags.take(i as int)),
                    {
                        proof {
                            assert(task@.tags.take(i + 1).drop_last() =~= task@.tags.take(i as int));
                            assert(task@.tags.take(i + 1).last() == task.tags@[i as int]@);
                        }
                        if !contains_text(&found, &task.tags[i]) {
                            let ghost before = found@;
                            let copy = task.tags[i].clone();
                            found.push(copy);
                            assert(texts(found@) =~= texts(before).push(task.tags@[i as int]@));
                        }
                    }
                    proof {
                        assert(task@.tags.take(count as int) =~= task@.tags);
                    }
                },
                None => {},
            }
        }
        found
    }

    /// The tasks that carry every tag of `wanted`, in ascending order of
    /// handle.
    pub fn iter_with_tags(&self, wanted: &Vec<String>) -> (entries: Vec<(TaskId, &Task)>)
        ensures
            handles_of(entries@) == matching(self@, tagged_with(texts(wanted@))),
            entries_match(self@, entries@),
    {
        let mut entries: Vec<(TaskId, &Task)> = Vec::new();
        let bound = slab_capacity(&self.tasks);
        let ghost keep = tagged_with(texts(wanted@));
        proof {
            lemma_matching_bound(self@, keep, 0, bound as nat, handle_limit());
            assert(handles_of(entries@) =~= Seq::empty());
        }
        for k in 0..bound
            invariant
                keep == tagged_with(texts(wanted@)),
                entries_match(self@, entries@),
                handles_of(entries@) + matching_between(self@, keep, k as nat, bound as nat)
                    == matching(self@, keep),
        {
            let ghost earlier = handles_of(entries@);
            let ghost rest = matching_between(self@, keep, (k + 1) as nat, bound as nat);
            match slab_get(&self.tasks, k) {
                Some(task) => {
                    if task.has_tags(wanted) {
                        entries.push((k, task));
                        proof {
                            assert(handles_of(entries@) =~= earlier.push(k));
                            assert(earlier.push(k) + rest =~= earlier + (seq![k] + rest));
                        }
                    }
                },
                None => {},
            }
        }
        proof {
            assert(handles_of(entries@) + Seq::<TaskId>::empty() =~= handles_of(entries@));
        }
        entries
    }
}

} // verus!
