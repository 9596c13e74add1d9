//! Lists that hold each entry once, such as the handles a task depends on
//! and its tags: membership, adding an entry once, and taking one out.

use vstd::prelude::*;
use crate::task::TaskId;

verus! {

/// The test that keeps every entry but `h`.
pub open spec fn is_not<A>(h: A) -> spec_fn(A) -> bool {
    |x: A| x != h
}

/// The list without any occurrence of `h`, the rest in its order.
pub open spec fn without<A>(handles: Seq<A>, h: A) -> Seq<A> {
    handles.filter(is_not(h))
}

/// The list with `h` at its end, unless it holds `h` already.
pub open spec fn with_handle<A>(handles: Seq<A>, h: A) -> Seq<A> {
    if handles.contains(h) {
        handles
    } else {
        handles.push(h)
    }
}

/// The list extended by each entry of `more` in turn, each at most once.
pub open spec fn with_handles<A>(handles: Seq<A>, more: Seq<A>) -> Seq<A>
    decreases more.len(),
{
    if more.len() == 0 {
        handles
    } else {
        with_handle(with_handles(handles, more.drop_last()), more.last())
    }
}

/// Taking `h` out of a list that ends in `x`.
pub proof fn lemma_without_push<A>(handles: Seq<A>, x: A, h: A)
    ensures
        without(handles.push(x), h) == if x != h {
            without(handles, h).push(x)
        } else {
            without(handles, h)
        },
{
    handles.lemma_filter_push(x, is_not(h));
}

/// What is left holds exactly the other entries.
pub proof fn lemma_without_members<A>(handles: Seq<A>, h: A)
    ensures
        forall|x: A| #[trigger] without(handles, h).contains(x) <==> handles.contains(x) && x != h,
    decreases handles.len(),
{
    if handles.len() == 0 {
        reveal(Seq::filter);
        assert(without(handles, h) =~= handles);
    } else {
        let front = handles.drop_last();
        let x = handles.last();
        assert(handles =~= front.push(x));
        lemma_without_members(front, h);
        lemma_without_push(front, x, h);
        assert forall|y: A| #[trigger]
            without(handles, h).contains(y) <==> handles.contains(y) && y != h by {
            if handles.contains(y) && y != h {
                let i = choose|i: int| 0 <= i < handles.len() && handles[i] == y;
                if i < front.len() {
                    assert(front[i] == y);
                    assert(front.contains(y));
                    assert(without(front, h).contains(y));
                    let j = choose|j: int|
                        0 <= j < without(front, h).len() && without(front, h)[j] == y;
                    assert(without(handles, h)[j] == y);
                } else {
                    assert(x == y);
                    assert(without(handles, h)[without(front, h).len() as int] == y);
                }
            }
            if without(handles, h).contains(y) {
                let j = choose|j: int|
                    0 <= j < without(handles, h).len() && without(handles, h)[j] == y;
                if j < without(front, h).len() {
                    assert(without(front, h)[j] == y);
                    assert(without(front, h).contains(y));
                    let i = choose|i: int| 0 <= i < front.len() && front[i] == y;
                    assert(handles[i] == y);
                } else {
                    assert(y == x);
                    assert(handles[handles.len() - 1] == y);
                }
            }
        }
    }
}

/// Taking an entry out of a list without repetitions leaves none.
pub proof fn lemma_without_no_duplicates<A>(handles: Seq<A>, h: A)
    requires
        handles.no_duplicates(),
    ensures
        without(handles, h).no_duplicates(),
    decreases handles.len(),
{
    if handles.len() == 0 {
        reveal(Seq::filter);
        assert(without(handles, h) =~= handles);
    } else {
        let front = handles.drop_last();
        let x = handles.last();
        assert(handles =~= front.push(x));
        lemma_without_no_duplicates(front, h);
        lemma_without_push(front, x, h);
        lemma_without_members(front, h);
        if x != h {
            if without(front, h).contains(x) {
                let i = choose|i: int| 0 <= i < front.len() && front[i] == x;
                assert(handles[i] == handles[handles.len() - 1]);
            }
        }
    }
}

/// Taking out an entry that is not there changes nothing.
pub proof fn lemma_without_absent<A>(handles: Seq<A>, h: A)
    requires
        !handles.contains(h),
    ensures
        without(handles, h) == handles,
    decreases handles.len(),
{
    if handles.len() == 0 {
        reveal(Seq::filter);
        assert(without(handles, h) =~= handles);
    } else {
        let front = handles.drop_last();
        let x = handles.last();
        assert(handles =~= front.push(x));
        assert(handles[handles.len() - 1] == x);
        assert forall|i: int| 0 <= i < front.len() implies front[i] != h by {
            assert(handles[i] == front[i]);
        }
        lemma_without_absent(front, h);
        lemma_without_push(front, x, h);
    }
}

/// Adding an entry once keeps a list free of repetitions.
pub proof fn lemma_with_handle_no_duplicates<A>(handles: Seq<A>, h: A)
    requires
        handles.no_duplicates(),
    ensures
        with_handle(handles, h).no_duplicates(),
        with_handle(handles, h).contains(h),
        forall|x: A| #[trigger]
            with_handle(handles, h).contains(x) <==> handles.contains(x) || x == h,
{
    let after = with_handle(handles, h);
    if !handles.contains(h) {
        assert(after[handles.len() as int] == h);
        assert forall|x: A| #[trigger] after.contains(x) <==> handles.contains(x) || x == h by {
            if handles.contains(x) {
                let i = choose|i: int| 0 <= i < handles.len() && handles[i] == x;
                assert(after[i] == x);
            }
            if after.contains(x) {
                let i = choose|i: int| 0 <= i < after.len() && after[i] == x;
                if i < handles.len() {
                    assert(handles[i] == x);
                }
            }
        }
    }
}

/// Whether the list holds `h`.
pub fn contains_handle(handles: &Vec<TaskId>, h: TaskId) -> (found: bool)
    ensures
        found == handles@.contains(h),
{
    let count = handles.len();
    for i in 0..count
        invariant
            count == handles@.len(),
            forall|j: int| 0 <= j < i ==> handles@[j] != h,
    {
        if handles[i] == h {
            return true;
        }
    }
    false
}

/// Takes every occurrence of `h` out of the list and keeps the rest in
/// order.
pub fn strip_handle(handles: &mut Vec<TaskId>, h: TaskId)
    ensures
        final(handles)@ == without(old(handles)@, h),
{
    let mut kept: Vec<TaskId> = Vec::new();
    let count = handles.len();
    proof {
        reveal(Seq::filter);
        assert(handles@.take(0) =~= Seq::empty());
        assert(without(handles@.take(0), h) =~= Seq::empty());
    }
    for i in 0..count
        invariant
            count == handles@.len(),
            handles@ == old(handles)@,
            kept@ == without(handles@.take(i as int), h),
    {
        let x = handles[i];
        proof {
            assert(handles@.take(i + 1) =~= handles@.take(i as int).push(x));
            lemma_without_push(handles@.take(i as int), x, h);
        }
        if x != h {
            kept.push(x);
        }
    }
    assert(handles@.take(count as int) =~= handles@);
    *handles = kept;
}

} // verus!
