//! Line diffs: the operations that turn one text into another.
//!
//! The differ itself is the `similar` crate. This module holds its answer as
//! plain values and says what that answer means.

use crate::text;
use crate::text::whole_lines;
use similar::{DiffOp as Op, TextDiff};
use vstd::prelude::*;

verus! {

/// One step of a diff, over 0-based line numbers of the old and the new text.
#[derive(Debug, Clone, Copy, PartialEq, Eq, Structural)]
pub enum DiffOp {
    /// `len` lines are the same on both sides.
    Equal { old_index: usize, new_index: usize, len: usize },
    /// `old_len` old lines go.
    Delete { old_index: usize, old_len: usize, new_index: usize },
    /// `new_len` new lines come.
    Insert { old_index: usize, new_index: usize, new_len: usize },
    /// `old_len` old lines go and `new_len` new lines come.
    Replace { old_index: usize, old_len: usize, new_index: usize, new_len: usize },
}

impl DiffOp {
    pub open spec fn old_index(self) -> int {
        match self {
            DiffOp::Equal { old_index, .. } => old_index as int,
            DiffOp::Delete { old_index, .. } => old_index as int,
            DiffOp::Insert { old_index, .. } => old_index as int,
            DiffOp::Replace { old_index, .. } => old_index as int,
        }
    }

    pub open spec fn new_index(self) -> int {
        match self {
            DiffOp::Equal { new_index, .. } => new_index as int,
            DiffOp::Delete { new_index, .. } => new_index as int,
            DiffOp::Insert { new_index, .. } => new_index as int,
            DiffOp::Replace { new_index, .. } => new_index as int,
        }
    }

    /// How many old lines the step covers.
    pub open spec fn old_len(self) -> int {
        match self {
            DiffOp::Equal { len, .. } => len as int,
            DiffOp::Delete { old_len, .. } => old_len as int,
            DiffOp::Insert { .. } => 0,
            DiffOp::Replace { old_len, .. } => old_len as int,
        }
    }

    /// How many new lines the step covers.
    pub open spec fn new_len(self) -> int {
        match self {
            DiffOp::Equal { len, .. } => len as int,
            DiffOp::Delete { .. } => 0,
            DiffOp::Insert { new_len, .. } => new_len as int,
            DiffOp::Replace { new_len, .. } => new_len as int,
        }
    }

    /// How many lines the step adds.
    pub open spec fn added(self) -> int {
        if self is Equal {
            0
        } else {
            self.new_len()
        }
    }

    /// How many lines the step removes.
    pub open spec fn removed(self) -> int {
        if self is Equal {
            0
        } else {
            self.old_len()
        }
    }

    /// The step stays within `old` old lines and `new` new lines.
    pub open spec fn in_bounds(self, old: int, new: int) -> bool {
        &&& self.old_index() + self.old_len() <= old
        &&& self.new_index() + self.new_len() <= new
    }
}

/// How many old lines a group of steps covers.
pub open spec fn old_total(group: Seq<DiffOp>) -> int
    decreases group.len(),
{
    if group.len() == 0 {
        0
    } else {
        old_total(group.drop_last()) + group.last().old_len()
    }
}

/// How many new lines a group of steps covers.
pub open spec fn new_total(group: Seq<DiffOp>) -> int
    decreases group.len(),
{
    if group.len() == 0 {
        0
    } else {
        new_total(group.drop_last()) + group.last().new_len()
    }
}

/// The old line that a group starts at.
pub open spec fn group_start(group: Seq<DiffOp>) -> int {
    group[0].old_index()
}

/// The old line behind the last one that a group covers.
pub open spec fn group_end(group: Seq<DiffOp>) -> int {
    group_start(group) + old_total(group)
}

/// The old line behind the last group, or the first line where there is none.
pub open spec fn covered(groups: Seq<Seq<DiffOp>>) -> int {
    if groups.len() == 0 {
        0
    } else {
        group_end(groups.last())
    }
}

/// The lines that stand in the result of one step: common lines come from the
/// old side, added ones from the new side.
pub open spec fn step_result(
    op: DiffOp,
    old: Seq<Seq<char>>,
    new: Seq<Seq<char>>,
) -> Seq<Seq<char>> {
    match op {
        DiffOp::Equal { old_index, len, .. } => old.subrange(
            old_index as int,
            old_index + len,
        ),
        DiffOp::Delete { .. } => Seq::empty(),
        DiffOp::Insert { new_index, new_len, .. } => new.subrange(
            new_index as int,
            new_index + new_len,
        ),
        DiffOp::Replace { new_index, new_len, .. } => new.subrange(
            new_index as int,
            new_index + new_len,
        ),
    }
}

/// The lines that stand in the result of a group of steps.
pub open spec fn group_result(
    group: Seq<DiffOp>,
    old: Seq<Seq<char>>,
    new: Seq<Seq<char>>,
) -> Seq<Seq<char>>
    decreases group.len(),
{
    if group.len() == 0 {
        Seq::empty()
    } else {
        group_result(group.drop_last(), old, new) + step_result(group.last(), old, new)
    }
}

/// The lines up to the end of the last group once each group's old lines are
/// replaced by its result; the lines between groups stay.
pub open spec fn spliced_front(
    groups: Seq<Seq<DiffOp>>,
    old: Seq<Seq<char>>,
    new: Seq<Seq<char>>,
) -> Seq<Seq<char>>
    decreases groups.len(),
{
    if groups.len() == 0 {
        Seq::empty()
    } else {
        spliced_front(groups.drop_last(), old, new) + old.subrange(
            covered(groups.drop_last()),
            group_start(groups.last()),
        ) + group_result(groups.last(), old, new)
    }
}

/// The old lines with each group's stretch of them replaced by the group's
/// result.
pub open spec fn spliced(
    groups: Seq<Seq<DiffOp>>,
    old: Seq<Seq<char>>,
    new: Seq<Seq<char>>,
) -> Seq<Seq<char>> {
    spliced_front(groups, old, new) + old.skip(covered(groups))
}

/// Every group has a step, and every step stays within the lines.
pub open spec fn groups_in_bounds(groups: Seq<Seq<DiffOp>>, old: int, new: int) -> bool {
    &&& forall|i: int| 0 <= i < groups.len() ==> #[trigger] groups[i].len() > 0
    &&& forall|i: int, k: int|
        0 <= i < groups.len() && 0 <= k < groups[i].len() ==> (
        #[trigger] groups[i][k]).in_bounds(old, new)
}

/// The groups follow one another: each starts where the one before ends, or later.
pub open spec fn groups_ordered(groups: Seq<Seq<DiffOp>>, old: int) -> bool {
    forall|i: int|
        0 <= i < groups.len() ==> {
            &&& covered(groups.take(i)) <= group_start(#[trigger] groups[i])
            &&& group_end(groups[i]) <= old
        }
}

/// How many lines more the groups cover on the new side than on the old.
pub open spec fn shift(groups: Seq<Seq<DiffOp>>) -> int
    decreases groups.len(),
{
    if groups.len() == 0 {
        0
    } else {
        shift(groups.drop_last()) + new_total(groups.last()) - old_total(groups.last())
    }
}

/// A step stands where it should: common lines and removed ones at `old_at` of
/// the old lines, common lines and added ones at `new_at` of the new lines, and
/// what is common is the same on both sides. Where an insertion stands among the
/// old lines, and a deletion among the new ones, is left open.
pub open spec fn step_in_place(
    op: DiffOp,
    old_at: int,
    new_at: int,
    old: Seq<Seq<char>>,
    new: Seq<Seq<char>>,
) -> bool {
    match op {
        DiffOp::Equal { old_index, new_index, len } => {
            &&& old_index == old_at
            &&& new_index == new_at
            &&& old.subrange(old_at, old_at + len) == new.subrange(new_at, new_at + len)
        },
        DiffOp::Delete { old_index, .. } => old_index == old_at,
        DiffOp::Insert { new_index, .. } => new_index == new_at,
        DiffOp::Replace { old_index, new_index, .. } => old_index == old_at && new_index == new_at,
    }
}

/// The steps of a group follow one another without a gap, from the start of the
/// group on the old side and from `new_at` on the new side.
pub open spec fn steps_in_place(
    group: Seq<DiffOp>,
    new_at: int,
    old: Seq<Seq<char>>,
    new: Seq<Seq<char>>,
) -> bool {
    forall|k: int|
        0 <= k < group.len() ==> step_in_place(
            #[trigger] group[k],
            group_start(group) + old_total(group.take(k)),
            new_at + new_total(group.take(k)),
            old,
            new,
        )
}

/// The steps of every group are in place. A group starts as far down on the new
/// side as on the old, moved by what the groups before it add and remove.
pub open spec fn groups_in_place(
    groups: Seq<Seq<DiffOp>>,
    old: Seq<Seq<char>>,
    new: Seq<Seq<char>>,
) -> bool {
    forall|i: int|
        0 <= i < groups.len() ==> steps_in_place(
            #[trigger] groups[i],
            group_start(groups[i]) + shift(groups.take(i)),
            old,
            new,
        )
}

/// What makes groups of steps a diff of `old` and `new`: they stay within the
/// lines, follow one another, their steps are in place, and replacing each
/// group's stretch of old lines by its result gives the new lines.
pub open spec fn describes(
    groups: Seq<Seq<DiffOp>>,
    old: Seq<Seq<char>>,
    new: Seq<Seq<char>>,
) -> bool {
    &&& groups_in_bounds(groups, old.len() as int, new.len() as int)
    &&& groups_ordered(groups, old.len() as int)
    &&& groups_in_place(groups, old, new)
    &&& spliced(groups, old, new) == new
}

/// A diff of two texts: their lines, and the groups of steps around each change.
#[derive(Debug)]
pub struct LineDiff {
    pub old_lines: Vec<String>,
    pub new_lines: Vec<String>,
    pub groups: Vec<Vec<DiffOp>>,
}

/// The groups of steps that a vector of vectors holds.
pub open spec fn group_views(groups: Seq<Vec<DiffOp>>) -> Seq<Seq<DiffOp>> {
    groups.map_values(|g: Vec<DiffOp>| g@)
}

/// The groups of steps that `similar` finds between two lists of lines, with up
/// to `context` unchanged lines kept around each change.
pub uninterp spec fn slice_groups(
    old: Seq<Seq<char>>,
    new: Seq<Seq<char>>,
    context: nat,
) -> Seq<Seq<DiffOp>>;

/// The groups of steps between the lines of two texts.
pub open spec fn line_groups(old: Seq<char>, new: Seq<char>, context: nat) -> Seq<Seq<DiffOp>> {
    slice_groups(text::pieces(old), text::pieces(new), context)
}

/// Calls `similar::TextDiff::from_slices` and `TextDiff::grouped_ops`.
///
/// Claimed: the groups depend on the lines and `context` alone, and they are a
/// diff of those lines (see [`describes`]). Which of several such diffs comes
/// back is left to the name [`slice_groups`]. Compacting the diff may swap an
/// insertion with a deletion next to it and then leaves the `old_index` of the
/// one and the `new_index` of the other as they were, so of these two nothing is
/// claimed but that they lie within the lines.
///
/// The differ numbers distinct lines in 32 bits, hence the bound.
#[verifier::external_body]
fn diff_slices(old: &Vec<String>, new: &Vec<String>, context: usize) -> (groups: Vec<Vec<DiffOp>>)
    requires
        old@.len() + new@.len() <= u32::MAX,
        context <= usize::MAX / 2,
    ensures
        group_views(groups@) == slice_groups(text::texts(old@), text::texts(new@), context as nat),
        describes(group_views(groups@), text::texts(old@), text::texts(new@)),
{
    let old: Vec<_> = old.iter().map(String::as_str).collect();
    let new: Vec<_> = new.iter().map(String::as_str).collect();
    let step = |op| match op {
        Op::Equal { old_index, new_index, len } => DiffOp::Equal { old_index, new_index, len },
        Op::Delete { old_index, old_len, new_index } => DiffOp::Delete { old_index, old_len,
            new_index },
        Op::Insert { old_index, new_index, new_len } => DiffOp::Insert { old_index, new_index,
            new_len },
        Op::Replace { old_index, old_len, new_index, new_len } => DiffOp::Replace { old_index,
            old_len, new_index, new_len }
    };
    TextDiff::from_slices(&old, &new).grouped_ops(context).into_iter().map(
        |g| g.into_iter().map(step).collect(),
    ).collect()
}

/// Diffs two texts line by line, with up to `context` unchanged lines kept around
/// each change. A line ends with its line feed, as the working tree counts them;
/// a carriage return is a character of its line.
pub fn line_diff(old: &str, new: &str, context: usize) -> (diff: LineDiff)
    requires
        text::pieces(old@).len() + text::pieces(new@).len() <= u32::MAX,
        context <= usize::MAX / 2,
    ensures
        text::texts(diff.old_lines@) == text::pieces(old@),
        text::texts(diff.new_lines@) == text::pieces(new@),
        group_views(diff.groups@) == line_groups(old@, new@, context as nat),
        describes(group_views(diff.groups@), text::pieces(old@), text::pieces(new@)),
{
    let old_lines = whole_lines(old);
    let new_lines = whole_lines(new);
    assert(text::texts(old_lines@).len() == old_lines@.len());
    assert(text::texts(new_lines@).len() == new_lines@.len());
    let groups = diff_slices(&old_lines, &new_lines, context);
    LineDiff { old_lines, new_lines, groups }
}

} // verus!
