//! Tasks as text: numbers in decimal, lists joined by commas, and the tree
//! of a task with everything below it.

use vstd::prelude::*;
use vstd::string::StringExecFns;
use crate::relation::GraphView;
use crate::task::{texts, Task, TaskId, TaskOrder};

verus! {

/// The text of one decimal digit.
pub open spec fn digit(d: nat) -> Seq<char> {
    if d == 0 {
        "0"@
    } else if d == 1 {
        "1"@
    } else if d == 2 {
        "2"@
    } else if d == 3 {
        "3"@
    } else if d == 4 {
        "4"@
    } else if d == 5 {
        "5"@
    } else if d == 6 {
        "6"@
    } else if d == 7 {
        "7"@
    } else if d == 8 {
        "8"@
    } else {
        "9"@
    }
}

/// The number in decimal, without leading zeros.
pub open spec fn decimal(n: nat) -> Seq<char>
    decreases n,
{
    if n < 10 {
        digit(n)
    } else {
        decimal(n / 10) + digit(n % 10)
    }
}

/// The number in decimal, with a minus sign where it is negative.
pub open spec fn signed_decimal(n: int) -> Seq<char> {
    if n < 0 {
        "-"@ + decimal((-n) as nat)
    } else {
        decimal(n as nat)
    }
}

/// The texts one after the other, with a comma between each two.
pub open spec fn joined(parts: Seq<Seq<char>>) -> Seq<char>
    decreases parts.len(),
{
    if parts.len() == 0 {
        Seq::empty()
    } else if parts.len() == 1 {
        parts[0]
    } else {
        joined(parts.drop_last()) + ","@ + parts.last()
    }
}

/// Each handle in decimal.
pub open spec fn handle_texts(handles: Seq<TaskId>) -> Seq<Seq<char>> {
    Seq::new(handles.len(), |i: int| decimal(handles[i] as nat))
}

/// A manual order hint as text: the position, or nothing for "last".
pub open spec fn order_text(order: TaskOrder) -> Seq<char> {
    match order {
        TaskOrder::Order(position) => signed_decimal(position as int),
        TaskOrder::Last => Seq::empty(),
    }
}

/// `count` times four blanks.
pub open spec fn indent(count: nat) -> Seq<char>
    decreases count,
{
    if count == 0 {
        Seq::empty()
    } else {
        indent((count - 1) as nat) + "    "@
    }
}

/// The line of one task in a tree: indented, the handle, a bracket, the
/// label.
pub open spec fn tree_line(id: TaskId, name: Seq<char>, level: nat) -> Seq<char> {
    indent(level) + decimal(id as nat) + ") "@ + name + "\n"@
}

/// The tree of the task under `id`: its line, then the tree of each of its
/// dependencies one level deeper, down to `depth` levels below it.
pub open spec fn tree_text(g: GraphView, id: TaskId, level: nat, depth: nat) -> Seq<char>
    decreases depth, 0nat,
{
    if depth == 0 {
        tree_line(id, g[id].name, level)
    } else {
        tree_line(id, g[id].name, level) + forest_text(
            g,
            g[id].dependencies,
            level + 1,
            (depth - 1) as nat,
        )
    }
}

/// The trees of the tasks of `roots`, one after the other.
pub open spec fn forest_text(g: GraphView, roots: Seq<TaskId>, level: nat, depth: nat) -> Seq<char>
    decreases depth, roots.len() + 1,
{
    if roots.len() == 0 {
        Seq::empty()
    } else {
        forest_text(g, roots.drop_last(), level, depth) + tree_text(g, roots.last(), level, depth)
    }
}

/// The text of the digit `d`.
fn digit_text(d: u64) -> (text: &'static str)
    requires
        d < 10,
    ensures
        text@ == digit(d as nat),
{
    if d == 0 {
        "0"
    } else if d == 1 {
        "1"
    } else if d == 2 {
        "2"
    } else if d == 3 {
        "3"
    } else if d == 4 {
        "4"
    } else if d == 5 {
        "5"
    } else if d == 6 {
        "6"
    } else if d == 7 {
        "7"
    } else if d == 8 {
        "8"
    } else {
        "9"
    }
}

/// The number in decimal.
pub fn decimal_text(n: u64) -> (text: String)
    ensures
        text@ == decimal(n as nat),
    decreases n,
{
    if n < 10 {
        String::from_str(digit_text(n))
    } else {
        let mut text = decimal_text(n / 10);
        text.append(digit_text(n % 10));
        text
    }
}

impl TaskOrder {
    /// The hint as text: the position in decimal, or nothing for "last".
    pub fn text(&self) -> (text: String)
        ensures
            text@ == order_text(*self),
    {
        match self {
            TaskOrder::Last => String::new(),
            TaskOrder::Order(position) => {
                let position: i64 = *position as i64;
                if position < 0 {
                    let mut text = String::from_str("-");
                    let digits = decimal_text((0 - position) as u64);
                    text.append(digits.as_str());
                    text
                } else {
                    decimal_text(position as u64)
                }
            },
        }
    }
}

/// The handles in decimal, with a comma between each two.
pub fn handles_text(handles: &[TaskId]) -> (text: String)
    ensures
        text@ == joined(handle_texts(handles@)),
{
    let mut text = String::new();
    let count = handles.len();
    let ghost all = handle_texts(handles@);
    proof {
        assert(all.take(0) =~= Seq::empty());
    }
    for i in 0..count
        invariant
            count == handles@.len(),
            all == handle_texts(handles@),
            text@ == joined(all.take(i as int)),
    {
        proof {
            assert(all.take(i + 1).drop_last() =~= all.take(i as int));
            assert(all.take(i + 1).last() == decimal(handles@[i as int] as nat));
            if i == 0 {
                assert(all.take(1)[0] == decimal(handles@[0] as nat));
            }
        }
        if i > 0 {
            text.append(",");
        }
        let number = decimal_text(handles[i] as u64);
        text.append(number.as_str());
        proof {
            if i == 0 {
                assert(text@ =~= decimal(handles@[0] as nat));
            }
        }
    }
    proof {
        assert(all.take(count as int) =~= all);
    }
    text
}

/// The texts with a comma between each two.
pub fn joined_text(parts: &[String]) -> (text: String)
    ensures
        text@ == joined(texts(parts@)),
{
    let mut text = String::new();
    let count = parts.len();
    let ghost all = texts(parts@);
    proof {
        assert(all.take(0) =~= Seq::empty());
    }
    for i in 0..count
        invariant
            count == parts@.len(),
            all == texts(parts@),
            text@ == joined(all.take(i as int)),
    {
        proof {
            assert(all.take(i + 1).drop_last() =~= all.take(i as int));
            assert(all.take(i + 1).last() == parts@[i as int]@);
            if i == 0 {
                assert(all.take(1)[0] == parts@[0]@);
            }
        }
        if i > 0 {
            text.append(",");
        }
        text.append(parts[i].as_str());
        proof {
            if i == 0 {
                assert(text@ =~= parts@[0]@);
            }
        }
    }
    proof {
        assert(all.take(count as int) =~= all);
    }
    text
}

impl Task {
    /// The handles that the task depends on, in decimal and joined by commas.
    pub fn dependencies_text(&self) -> (text: String)
        ensures
            text@ == joined(handle_texts(self@.dependencies)),
    {
        handles_text(self.dependencies.as_slice())
    }

    /// The tags of the task, joined by commas.
    pub fn tags_text(&self) -> (text: String)
        ensures
            text@ == joined(self@.tags),
    {
        joined_text(self.tags.as_slice())
    }
}

} // verus!
