//! Laws of clipping: which hunks are kept, line by line.

use crate::clip;
use crate::diff;
use crate::diff::DiffOp;
use crate::text;
use crate::types::LineRange;
use vstd::prelude::*;

verus! {

/// Whether a step removes line `x` of the old text, counted from one.
pub open spec fn step_removes(op: DiffOp, x: int) -> bool {
    match op {
        DiffOp::Delete { old_index, old_len, .. } => old_index < x <= old_index + old_len,
        DiffOp::Replace { old_index, old_len, .. } => old_index < x <= old_index + old_len,
        _ => false,
    }
}

/// Whether a step only adds text, right before line `x` of the old text.
pub open spec fn step_inserts_before(op: DiffOp, x: int) -> bool {
    match op {
        DiffOp::Insert { old_index, .. } => old_index + 1 == x,
        _ => false,
    }
}

/// Whether a group changes line `x` of the old text: it removes the line, or adds
/// text right before it.
pub open spec fn changes_line(group: Seq<DiffOp>, x: int) -> bool {
    exists|k: int|
        0 <= k < group.len() && (step_removes(#[trigger] group[k], x) || step_inserts_before(
            group[k],
            x,
        ))
}

/// Whether a line lies in one of the ranges, whose ends both belong to them.
pub open spec fn in_ranges(ranges: Seq<LineRange>, x: int) -> bool {
    exists|r: int|
        0 <= r < ranges.len() && (#[trigger] ranges[r]).start <= x && x <= ranges[r].end
}

/// A group that changes a line of a range is kept, wherever the group starts and
/// ends: the caller's own line is never left unformatted.
pub proof fn law_group_on_a_range_is_kept(group: Seq<DiffOp>, ranges: Seq<LineRange>, x: int)
    requires
        in_ranges(ranges, x),
        changes_line(group, x),
    ensures
        clip::in_scope(group, ranges),
{
    let r = choose|r: int|
        0 <= r < ranges.len() && (#[trigger] ranges[r]).start <= x && x <= ranges[r].end;
    let k = choose|k: int|
        0 <= k < group.len() && (step_removes(#[trigger] group[k], x) || step_inserts_before(
            group[k],
            x,
        ));
    assert(clip::touches(group[k], ranges[r]));
}

/// A group that is kept changes a line of a range, where there are ranges.
pub proof fn law_kept_group_is_on_a_range(group: Seq<DiffOp>, ranges: Seq<LineRange>)
    requires
        clip::in_scope(group, ranges),
        ranges.len() > 0,
        forall|k: int|
            0 <= k < group.len() && ((#[trigger] group[k]) is Delete || group[k] is Replace)
                ==> group[k].old_len() > 0,
        forall|r: int| 0 <= r < ranges.len() ==> (#[trigger] ranges[r]).start <= ranges[r].end,
    ensures
        exists|x: int| in_ranges(ranges, x) && #[trigger] changes_line(group, x),
{
    let (k, r) = choose|k: int, r: int|
        0 <= k < group.len() && 0 <= r < ranges.len() && clip::touches(
            #[trigger] group[k],
            #[trigger] ranges[r],
        );
    let op = group[k];
    let range = ranges[r];
    let at = op.old_index() + 1;
    let x: int = if at < range.start {
        range.start as int
    } else {
        at
    };
    assert(op is Equal ==> false);
    assert(step_removes(group[k], x) || step_inserts_before(group[k], x));
    assert(ranges[r].start <= x && x <= ranges[r].end);
    assert(changes_line(group, x));
}

/// Without ranges every group is kept.
pub proof fn law_no_ranges_keep_all(group: Seq<DiffOp>)
    ensures
        clip::in_scope(group, Seq::empty()),
{
}

/// The groups that are kept are those in scope, each once and in order.
pub proof fn law_kept_groups(groups: Seq<Seq<DiffOp>>, ranges: Seq<LineRange>)
    ensures
        clip::kept_groups(groups, ranges) == groups.filter(
            |g: Seq<DiffOp>| clip::in_scope(g, ranges),
        ),
    decreases groups.len(),
{
    reveal(Seq::filter);
    if groups.len() > 0 {
        law_kept_groups(groups.drop_last(), ranges);
    }
}

/// What is left out of a file's change touches none of the caller's lines: a group
/// that is dropped removes no line of a range, and adds no text before one.
pub proof fn law_dropped_group_is_elsewhere(
    groups: Seq<Seq<DiffOp>>,
    ranges: Seq<LineRange>,
    i: int,
    x: int,
)
    requires
        0 <= i < groups.len(),
        !clip::kept_groups(groups, ranges).contains(groups[i]),
        in_ranges(ranges, x),
    ensures
        !changes_line(groups[i], x),
{
    clip::law_kept_iff_in_scope(groups, ranges);
    if changes_line(groups[i], x) {
        law_group_on_a_range_is_kept(groups[i], ranges, x);
    }
}

/// All the groups that were found are counted, and the kept ones among them.
pub proof fn law_hunks_are_counted(
    original: Seq<char>,
    formatted: Seq<char>,
    groups: Seq<Seq<DiffOp>>,
    ranges: Seq<LineRange>,
)
    ensures
        ({
            let clipped = clip::clip_of(original, formatted, groups, ranges);
            &&& clipped.hunks_total == groups.len()
            &&& clipped.hunks_kept == groups.filter(
                |g: Seq<DiffOp>| clip::in_scope(g, ranges),
            ).len()
        }),
{
    law_kept_groups(groups, ranges);
}

/// The new content depends on the ranges through the kept groups alone: ranges
/// that keep the same groups give the same content and the same patch, and ranges
/// that keep all of them give the formatter's output.
pub proof fn law_content_follows_kept_groups(
    original: Seq<char>,
    formatted: Seq<char>,
    groups: Seq<Seq<DiffOp>>,
    ranges: Seq<LineRange>,
    other: Seq<LineRange>,
)
    requires
        diff::describes(groups, text::pieces(original), text::pieces(formatted)),
    ensures
        (forall|i: int|
            0 <= i < groups.len() ==> clip::in_scope(#[trigger] groups[i], ranges)
                == clip::in_scope(groups[i], other)) ==> clip::clip_of(
            original,
            formatted,
            groups,
            ranges,
        ) == clip::clip_of(original, formatted, groups, other),
        (forall|i: int| 0 <= i < groups.len() ==> clip::in_scope(#[trigger] groups[i], ranges))
            ==> clip::clip_of(original, formatted, groups, ranges).new_content == formatted,
        (forall|i: int| 0 <= i < groups.len() ==> !clip::in_scope(#[trigger] groups[i], ranges))
            ==> clip::clip_of(original, formatted, groups, ranges).new_content == original,
{
    lemma_same_kept(groups, ranges, other);
    lemma_same_kept(groups, ranges, Seq::empty());
    clip::law_whole_file(original, formatted, groups);
    if forall|i: int| 0 <= i < groups.len() ==> !clip::in_scope(#[trigger] groups[i], ranges) {
        clip::law_out_of_scope_unchanged(original, formatted, groups, ranges);
    }
}

proof fn lemma_same_kept(
    groups: Seq<Seq<DiffOp>>,
    ranges: Seq<LineRange>,
    other: Seq<LineRange>,
)
    ensures
        (forall|i: int|
            0 <= i < groups.len() ==> clip::in_scope(#[trigger] groups[i], ranges)
                == clip::in_scope(groups[i], other)) ==> clip::kept_groups(groups, ranges)
            == clip::kept_groups(groups, other),
    decreases groups.len(),
{
    if groups.len() > 0 && forall|i: int|
        0 <= i < groups.len() ==> clip::in_scope(#[trigger] groups[i], ranges) == clip::in_scope(
            groups[i],
            other,
        ) {
        let before = groups.drop_last();
        assert forall|i: int| 0 <= i < before.len() implies clip::in_scope(
            #[trigger] before[i],
            ranges,
        ) == clip::in_scope(before[i], other) by {
            assert(before[i] == groups[i]);
        }
        lemma_same_kept(before, ranges, other);
        assert(clip::in_scope(groups[groups.len() - 1], ranges) == clip::in_scope(
            groups[groups.len() - 1],
            other,
        ));
    }
}

/// The header of a hunk names the first line of each side, counted from one, and
/// how many lines the side has; a side without lines names the line before it.
pub proof fn law_hunk_header(hunk: clip::Hunk, old_line: nat, new_line: nat)
    requires
        hunk.old_len > 0 ==> old_line == hunk.old_start + 1,
        hunk.old_len == 0 ==> old_line == hunk.old_start,
        hunk.new_len > 0 ==> new_line == hunk.new_start + 1,
        hunk.new_len == 0 ==> new_line == hunk.new_start,
        hunk.old_len >= 0,
        hunk.new_len >= 0,
    ensures
        clip::hunk_header(hunk) == "@@ -"@ + text::decimal(old_line) + ","@ + text::decimal(
            hunk.old_len as nat,
        ) + " +"@ + text::decimal(new_line) + ","@ + text::decimal(hunk.new_len as nat)
            + " @@\n"@,
{
}

} // verus!
