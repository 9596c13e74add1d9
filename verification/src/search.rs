//! Finding tasks by their label: by a substring, with or without regard to
//! case, or by a glob pattern.

use glob::{Pattern, PatternError};
use vstd::prelude::*;
use crate::arena::{slab_capacity, slab_get};
use crate::graph::Graph;
use crate::listing::{
    entries_match, handle_limit, handles, handles_of, lemma_matching_bound, matching,
    matching_between,
};
use crate::relation::GraphView;
use crate::task::{Task, TaskId, TaskView};
use crate::views::by_selection;

verus! {

/// `glob::Pattern`, a compiled glob pattern, taken as it is.
#[verifier::external_type_specification]
#[verifier::external_body]
pub struct ExPattern(Pattern);

/// `glob::PatternError`, the reason why a text is no glob pattern, taken
/// as it is.
#[verifier::external_type_specification]
#[verifier::external_body]
pub struct ExPatternError(PatternError);

/// The upper-case form that `str::to_uppercase` gives a text.
pub uninterp spec fn uppercase(text: Seq<char>) -> Seq<char>;

/// Why a glob pattern was refused: where, and what is wrong there.
#[derive(Clone, PartialEq, Eq, Debug)]
pub struct InvalidPattern {
    /// The approximate position of the fault, in characters.
    pub pos: usize,
    /// What is wrong.
    pub msg: String,
}

/// `needle` stands in `hay` from position `at` on.
pub open spec fn occurs_at(needle: Seq<char>, hay: Seq<char>, at: int) -> bool {
    0 <= at && at + needle.len() <= hay.len() && hay.subrange(at, at + needle.len()) == needle
}

/// `needle` stands somewhere in `hay`.
pub open spec fn is_substring(needle: Seq<char>, hay: Seq<char>) -> bool {
    exists|at: int| #[trigger] occurs_at(needle, hay, at)
}

/// The text as it is compared: itself, or its upper-case form where case
/// is not to count.
pub open spec fn folded(text: Seq<char>, case_sensitive: bool) -> Seq<char> {
    if case_sensitive {
        text
    } else {
        uppercase(text)
    }
}

/// The test that a task meets whose label holds `wanted`.
pub open spec fn named_like(wanted: Seq<char>, case_sensitive: bool) -> spec_fn(TaskView) -> bool {
    |task: TaskView| is_substring(folded(wanted, case_sensitive), folded(task.name, case_sensitive))
}

/// Two stars stand side by side in the pattern, the first of them at `at`.
pub open spec fn stars_meet(pattern: Seq<char>, at: int) -> bool {
    0 <= at && at + 1 < pattern.len() && pattern[at] == '*' && pattern[at + 1] == '*'
}

/// The text has no opening bracket and no two stars side by side. Such a
/// text is a glob pattern whatever else it holds: a pattern is refused only
/// for a range that is not closed or for stars that meet.
pub open spec fn is_plain_glob(pattern: Seq<char>) -> bool {
    !pattern.contains('[') && forall|at: int| !#[trigger] stars_meet(pattern, at)
}

/// The entries of `list` whose mark is set, in their order.
pub open spec fn picked<A>(list: Seq<A>, marks: Seq<bool>) -> Seq<A>
    decreases list.len(),
{
    if list.len() == 0 || marks.len() == 0 {
        Seq::empty()
    } else if marks.last() {
        picked(list.drop_last(), marks.drop_last()).push(list.last())
    } else {
        picked(list.drop_last(), marks.drop_last())
    }
}

/// `part` is `full` with some entries left out.
pub open spec fn is_selection_of(part: Seq<TaskId>, full: Seq<TaskId>) -> bool {
    exists|marks: Seq<bool>| marks.len() == full.len() && part == #[trigger] picked(full, marks)
}

/// `str::to_uppercase`: the upper-case form of the text.
#[verifier::external_body]
fn to_upper(text: &str) -> (upper: String)
    ensures
        upper@ == uppercase(text@),
{
    text.to_uppercase()
}

/// `str::contains` with a string as the pattern: whether `needle` is a
/// substring of `hay`.
#[verifier::external_body]
fn text_contains(hay: &str, needle: &str) -> (found: bool)
    ensures
        found == is_substring(needle@, hay@),
{
    hay.contains(needle)
}

/// `glob::Pattern::new`: compiles a glob pattern, or says why it cannot.
/// It refuses a text only when it meets an opening bracket that starts no
/// range, or two or more stars side by side; so a text without either is
/// compiled. Of other texts nothing is claimed: what counts as a path
/// separator beside two stars differs between platforms.
#[verifier::external_body]
fn glob_compile(pattern: &str) -> (compiled: Result<Pattern, PatternError>)
    ensures
        is_plain_glob(pattern@) ==> compiled is Ok,
{
    Pattern::new(pattern)
}

/// `glob::Pattern::matches`: whether the text matches the pattern. Nothing
/// is claimed of the outcome, which differs between platforms.
#[verifier::external_body]
fn glob_matches(pattern: &Pattern, text: &str) -> bool {
    pattern.matches(text)
}

/// The two fields of a `glob::PatternError`, as a value of this library.
#[verifier::external_body]
fn glob_fault(error: PatternError) -> InvalidPattern {
    InvalidPattern { pos: error.pos, msg: String::from(error.msg) }
}

/// The text as it is handed to the matcher: itself, or its upper-case form
/// where case is not to count.
pub fn match_text(text: &str, case_sensitive: bool) -> (out: String)
    ensures
        out@ == folded(text@, case_sensitive),
{
    if case_sensitive {
        String::from_str(text)
    } else {
        to_upper(text)
    }
}

/// Keeps the entries whose mark is set.
pub fn keep_marked<'a>(entries: &Vec<(TaskId, &'a Task)>, marks: &Vec<bool>) -> (kept: Vec<
    (TaskId, &'a Task),
>)
    requires
        marks@.len() == entries@.len(),
    ensures
        kept@ == picked(entries@, marks@),
{
    let mut kept: Vec<(TaskId, &'a Task)> = Vec::new();
    let count = entries.len();
    proof {
        assert(entries@.take(0) =~= Seq::empty());
    }
    for i in 0..count
        invariant
            count == entries@.len(),
            count == marks@.len(),
            kept@ == picked(entries@.take(i as int), marks@.take(i as int)),
    {
        proof {
            assert(entries@.take(i + 1).drop_last() =~= entries@.take(i as int));
            assert(marks@.take(i + 1).drop_last() =~= marks@.take(i as int));
            assert(entries@.take(i + 1).last() == entries@[i as int]);
            assert(marks@.take(i + 1).last() == marks@[i as int]);
        }
        if marks[i] {
            kept.push(entries[i]);
        }
    }
    proof {
        assert(entries@.take(count as int) =~= entries@);
        assert(marks@.take(count as int) =~= marks@);
    }
    kept
}

/// What a search by glob pattern gives for each answer of the pattern
/// matcher: where the pattern was refused, the reason; where it was
/// compiled and `verdicts` holds, entry by entry, whether the label matches,
/// the entries whose label does.
pub fn found_by_verdicts<'a>(
    all: &Vec<(TaskId, &'a Task)>,
    verdicts: Result<Vec<bool>, InvalidPattern>,
) -> (outcome: Result<Vec<(TaskId, &'a Task)>, InvalidPattern>)
    requires
        match verdicts {
            Ok(marks) => marks@.len() == all@.len(),
            Err(_) => true,
        },
    ensures
        match verdicts {
            Ok(marks) => outcome is Ok && outcome->Ok_0@ == picked(all@, marks@),
            Err(fault) => outcome is Err && outcome->Err_0 == fault,
        },
{
    match verdicts {
        Ok(marks) => Ok(keep_marked(all, &marks)),
        Err(fault) => Err(fault),
    }
}

/// Picking entries and then reading their handles is reading the handles
/// and then picking.
pub proof fn lemma_picked_handles(entries: Seq<(TaskId, &Task)>, marks: Seq<bool>)
    requires
        marks.len() == entries.len(),
    ensures
        handles_of(picked(entries, marks)) == picked(handles_of(entries), marks),
    decreases entries.len(),
{
    if entries.len() == 0 {
        assert(handles_of(picked(entries, marks)) =~= Seq::empty());
    } else {
        let front = picked(entries.drop_last(), marks.drop_last());
        lemma_picked_handles(entries.drop_last(), marks.drop_last());
        assert(handles_of(entries).drop_last() =~= handles_of(entries.drop_last()));
        assert(handles_of(entries).last() == entries.last().0);
        if marks.last() {
            assert(handles_of(front.push(entries.last())) =~= handles_of(front).push(
                entries.last().0,
            ));
        }
    }
}

/// Picked entries still pair each handle with its task.
pub proof fn lemma_picked_match(g: GraphView, entries: Seq<(TaskId, &Task)>, marks: Seq<bool>)
    requires
        marks.len() == entries.len(),
        entries_match(g, entries),
    ensures
        entries_match(g, picked(entries, marks)),
    decreases entries.len(),
{
    if entries.len() > 0 {
        let front = picked(entries.drop_last(), marks.drop_last());
        assert forall|i: int| 0 <= i < entries.drop_last().len() implies g.dom().contains(
            (#[trigger] entries.drop_last()[i]).0,
        ) && entries.drop_last()[i].1@ == g[entries.drop_last()[i].0] by {
            assert(entries.drop_last()[i] == entries[i]);
        }
        lemma_picked_match(g, entries.drop_last(), marks.drop_last());
        assert(entries.last() == entries[entries.len() - 1]);
    }
}

impl Graph {
    /// The tasks whose label holds `wanted` as a substring, in ascending
    /// order of handle. Where case is not to count, both are compared in
    /// upper case.
    pub fn find_by_name(&self, wanted: &str, case_sensitive: bool) -> (entries: Vec<
        (TaskId, &Task),
    >)
        ensures
            handles_of(entries@) == matching(self@, named_like(wanted@, case_sensitive)),
            entries_match(self@, entries@),
    {
        let mut entries: Vec<(TaskId, &Task)> = Vec::new();
        let bound = slab_capacity(&self.tasks);
        let ghost keep = named_like(wanted@, case_sensitive);
        let needle = match_text(wanted, case_sensitive);
        proof {
            lemma_matching_bound(self@, keep, 0, bound as nat, handle_limit());
            assert(handles_of(entries@) =~= Seq::empty());
        }
        for k in 0..bound
            invariant
                keep == named_like(wanted@, case_sensitive),
                needle@ == folded(wanted@, case_sensitive),
                entries_match(self@, entries@),
                handles_of(entries@) + matching_between(self@, keep, k as nat, bound as nat)
                    == matching(self@, keep),
        {
            let ghost earlier = handles_of(entries@);
            let ghost rest = matching_between(self@, keep, (k + 1) as nat, bound as nat);
            match slab_get(&self.tasks, k) {
                Some(task) => {
                    let label = match_text(task.name.as_str(), case_sensitive);
                    let found = text_contains(label.as_str(), needle.as_str());
                    if found {
                        entries.push((k, task));
                        proof {
                            assert(handles_of(entries@) =~= earlier.push(k));
                            assert(earlier.push(k) + rest =~= earlier + (seq![k] + rest));
                        }
                    }
                },
                None => {},
            }
        }
        proof {
            assert(handles_of(entries@) + Seq::<TaskId>::empty() =~= handles_of(entries@));
        }
        entries
    }

    /// The tasks whose label matches the glob pattern `pattern`, in
    /// ascending order of handle, or the reason why the pattern is no glob
    /// pattern. Where case is not to count, pattern and labels are compared
    /// in upper case. A pattern without an opening bracket and without two
    /// stars side by side is never refused. The pattern and each label go to
    /// the matcher as [`match_text`] gives them; which labels match is for
    /// the matcher to say, and [`found_by_verdicts`] says what is returned
    /// for each of its answers.
    pub fn find_by_glob(&self, pattern: &str, case_sensitive: bool) -> (outcome: Result<
        Vec<(TaskId, &Task)>,
        InvalidPattern,
    >)
        ensures
            is_plain_glob(folded(pattern@, case_sensitive)) ==> outcome is Ok,
            match outcome {
                Ok(entries) => is_selection_of(handles_of(entries@), handles(self@))
                    && entries_match(self@, entries@),
                Err(_) => true,
            },
    {
        let wanted = match_text(pattern, case_sensitive);
        let compiled = glob_compile(wanted.as_str());
        let all = self.iter();
        let verdicts = match compiled {
            Ok(compiled) => {
                let count = all.len();
                let mut marks: Vec<bool> = Vec::new();
                for i in 0..count
                    invariant
                        count == all@.len(),
                        marks@.len() == i,
                {
                    let label = match_text(all[i].1.name.as_str(), case_sensitive);
                    marks.push(glob_matches(&compiled, label.as_str()));
                }
                Ok(marks)
            },
            Err(error) => Err(glob_fault(error)),
        };
        let ghost answers = verdicts;
        let outcome = found_by_verdicts(&all, verdicts);
        proof {
            match answers {
                Ok(marks) => {
                    lemma_picked_handles(all@, marks@);
                    lemma_picked_match(self@, all@, marks@);
                    assert(handles_of(outcome->Ok_0@) == picked(handles(self@), marks@));
                },
                Err(_) => {},
            }
        }
        outcome
    }

    /// What a search by label shows: the tasks found by
    /// [`Graph::find_by_glob`] where `glob` is set, else by
    /// [`Graph::find_by_name`], the selected first, then the deselected,
    /// then the finished.
    pub fn find(&self, pattern: &str, glob: bool, case_sensitive: bool) -> (outcome: Result<
        Vec<(TaskId, &Task)>,
        InvalidPattern,
    >)
        ensures
            glob && is_plain_glob(folded(pattern@, case_sensitive)) ==> outcome is Ok,
            match outcome {
                Ok(entries) => entries_match(self@, entries@) && if glob {
                    exists|part: Seq<TaskId>| #[trigger]
                        is_selection_of(part, handles(self@)) && handles_of(entries@)
                            == by_selection(self@, part)
                } else {
                    handles_of(entries@) == by_selection(
                        self@,
                        matching(self@, named_like(pattern@, case_sensitive)),
                    )
                },
                Err(_) => glob,
            },
    {
        if glob {
            match self.find_by_glob(pattern, case_sensitive) {
                Ok(found) => {
                    let entries = self.sort_by_selection(&found);
                    assert(is_selection_of(handles_of(found@), handles(self@)));
                    Ok(entries)
                },
                Err(fault) => Err(fault),
            }
        } else {
            let found = self.find_by_name(pattern, case_sensitive);
            Ok(self.sort_by_selection(&found))
        }
    }
}

} // verus!
