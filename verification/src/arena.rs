//! The arena that holds the tasks: a `slab::Slab`, seen through the map from
//! handle to task that it stands for.

use slab::Slab;
use vstd::prelude::*;
use crate::task::Task;

verus! {

/// `slab::Slab`, taken as it is: nothing of its inside is visible here.
#[verifier::external_type_specification]
#[verifier::external_body]
#[verifier::reject_recursive_types(T)]
pub struct ExSlab<T>(Slab<T>);

/// `Slab::clone`: a copy of the arena. Nothing is claimed of it.
pub assume_specification<T>[ <Slab<T> as Clone>::clone ](slab: &Slab<T>) -> Slab<T>
    where T: Clone
;

/// The tasks that an arena holds, each under its handle.
pub uninterp spec fn slab_tasks(slab: Slab<Task>) -> Map<usize, Task>;

/// The map that a list of pairs of handle and task describes. Where a handle
/// comes twice, its last task counts.
pub open spec fn entry_map(pairs: Seq<(usize, Task)>) -> Map<usize, Task>
    decreases pairs.len(),
{
    if pairs.len() == 0 {
        Map::empty()
    } else {
        entry_map(pairs.drop_last()).insert(pairs.last().0, pairs.last().1)
    }
}

/// `Slab::from_iter` on pairs of handle and task: an arena that holds each
/// task under its handle, a later pair replacing an earlier one with the
/// same handle. As with `Vec::push`, what happens when memory runs out is
/// not part of this.
#[verifier::external_body]
pub(crate) fn slab_from_pairs(pairs: Vec<(usize, Task)>) -> (arena: Slab<Task>)
    ensures
        slab_tasks(arena) == entry_map(pairs@),
{
    Slab::from_iter(pairs)
}

/// `Slab::new`: an arena that holds nothing.
#[verifier::external_body]
pub(crate) fn slab_new() -> (arena: Slab<Task>)
    ensures
        slab_tasks(arena) =~= Map::empty(),
{
    Slab::new()
}

/// `Slab::get`: the task stored under `key`, or `None` where the slot is
/// vacant or beyond the arena.
#[verifier::external_body]
pub(crate) fn slab_get(slab: &Slab<Task>, key: usize) -> (found: Option<&Task>)
    ensures
        match found {
            Some(task) => slab_tasks(*slab).dom().contains(key) && *task == slab_tasks(*slab)[key],
            None => !slab_tasks(*slab).dom().contains(key),
        },
{
    slab.get(key)
}

/// `Slab::get_mut`: as `Slab::get`, but the task may be written through the
/// reference; the arena then holds what was written, under the same handle,
/// and is otherwise unchanged.
#[verifier::external_body]
pub(crate) fn slab_get_mut(slab: &mut Slab<Task>, key: usize) -> (found: Option<&mut Task>)
    ensures
        match found {
            Some(task) => slab_tasks(*old(slab)).dom().contains(key)
                && *task == slab_tasks(*old(slab))[key]
                && slab_tasks(*final(slab)) == slab_tasks(*old(slab)).insert(key, *final(task)),
            None => !slab_tasks(*old(slab)).dom().contains(key)
                && slab_tasks(*final(slab)) == slab_tasks(*old(slab)),
        },
{
    slab.get_mut(key)
}

/// `Slab::insert`: stores the task under a handle that was vacant, and
/// returns that handle. Nothing else in the arena changes. As with
/// `Vec::push`, what happens when memory runs out is not part of this.
#[verifier::external_body]
pub(crate) fn slab_insert(slab: &mut Slab<Task>, task: Task) -> (key: usize)
    ensures
        !slab_tasks(*old(slab)).dom().contains(key),
        slab_tasks(*final(slab)) == slab_tasks(*old(slab)).insert(key, task),
{
    slab.insert(task)
}

/// `Slab::try_remove`: takes the task stored under `key` out of the arena
/// and returns it; where there is none, the arena is left as it was.
#[verifier::external_body]
pub(crate) fn slab_try_remove(slab: &mut Slab<Task>, key: usize) -> (taken: Option<Task>)
    ensures
        match taken {
            Some(task) => slab_tasks(*old(slab)).dom().contains(key)
                && task == slab_tasks(*old(slab))[key]
                && slab_tasks(*final(slab)) == slab_tasks(*old(slab)).remove(key),
            None => !slab_tasks(*old(slab)).dom().contains(key)
                && slab_tasks(*final(slab)) == slab_tasks(*old(slab)),
        },
{
    slab.try_remove(key)
}

/// `Slab::clear`: empties the arena.
#[verifier::external_body]
pub(crate) fn slab_clear(slab: &mut Slab<Task>)
    ensures
        slab_tasks(*final(slab)) =~= Map::empty(),
{
    slab.clear()
}

/// `Slab::len`: the number of tasks stored.
#[verifier::external_body]
pub(crate) fn slab_len(slab: &Slab<Task>) -> (count: usize)
    ensures
        count == slab_tasks(*slab).dom().len(),
{
    slab.len()
}

/// `Slab::capacity`: the number of slots allocated. Every handle in use is
/// the number of one of them, so it lies below this bound.
#[verifier::external_body]
pub(crate) fn slab_capacity(slab: &Slab<Task>) -> (bound: usize)
    ensures
        forall|key: usize| slab_tasks(*slab).dom().contains(key) ==> bound > key,
{
    slab.capacity()
}

} // verus!
