//! Clipping: a whole-file change cut down to the caller's ranges.
//!
//! The formatter's output is diffed against the original, and only the groups
//! of changes that touch the scoped ranges are kept. What is left is a valid
//! unified diff, and the content that it leads to: whoever reads the patch back
//! and applies it gets the content (see [`crate::unified`]).

use crate::diff;
use crate::diff::{DiffOp, LineDiff, line_diff};
use crate::text;
use crate::text::{chars_of, push_decimal};
use crate::types::LineRange;
use crate::unified;
use vstd::prelude::*;

verus! {

/// How many unchanged lines are kept around a change.
pub const CONTEXT: usize = 3;

/// Whether a step changes lines of the range. An insertion counts where the
/// line it comes before is in the range.
pub open spec fn touches(op: DiffOp, range: LineRange) -> bool {
    match op {
        DiffOp::Equal { .. } => false,
        DiffOp::Insert { old_index, .. } => range.first() <= old_index < range.end,
        DiffOp::Delete { old_index, old_len, .. } => old_index < range.end && range.first()
            < old_index + old_len,
        DiffOp::Replace { old_index, old_len, .. } => old_index < range.end && range.first()
            < old_index + old_len,
    }
}

/// Whether a group of steps is in scope: it touches one of the ranges. Without
/// ranges the whole file is in scope.
pub open spec fn in_scope(group: Seq<DiffOp>, ranges: Seq<LineRange>) -> bool {
    ||| ranges.len() == 0
    ||| exists|k: int, r: int|
        0 <= k < group.len() && 0 <= r < ranges.len() && touches(
            #[trigger] group[k],
            #[trigger] ranges[r],
        )
}

/// Whether one step touches one range.
fn op_touches(op: &DiffOp, range: LineRange) -> (yes: bool)
    requires
        op.old_index() + op.old_len() <= usize::MAX,
    ensures
        yes == touches(*op, range),
{
    let (first, end) = range.as_half_open();
    match *op {
        DiffOp::Equal { .. } => false,
        DiffOp::Insert { old_index, .. } => first <= old_index && old_index < end,
        DiffOp::Delete { old_index, old_len, .. } => old_index < end && first < old_index
            + old_len,
        DiffOp::Replace { old_index, old_len, .. } => old_index < end && first < old_index
            + old_len,
    }
}

/// Does the group's changed region intersect any scoped range?
pub fn group_in_scope(group: &Vec<DiffOp>, ranges: &[LineRange]) -> (yes: bool)
    requires
        forall|k: int|
            0 <= k < group@.len() ==> (#[trigger] group@[k]).old_index() + group@[k].old_len()
                <= usize::MAX,
    ensures
        yes == in_scope(group@, ranges@),
{
    if ranges.len() == 0 {
        return true;
    }
    for k in 0..group.len()
        invariant
            forall|k: int|
                0 <= k < group@.len() ==> (#[trigger] group@[k]).old_index() + group@[k].old_len()
                    <= usize::MAX,
            forall|a: int, r: int|
                0 <= a < k && 0 <= r < ranges@.len() ==> !touches(
                    #[trigger] group@[a],
                    #[trigger] ranges@[r],
                ),
    {
        for r in 0..ranges.len()
            invariant
                k < group@.len(),
                group@[k as int].old_index() + group@[k as int].old_len() <= usize::MAX,
                forall|b: int|
                    0 <= b < r ==> !touches(group@[k as int], #[trigger] ranges@[b]),
        {
            if op_touches(&group[k], ranges[r]) {
                assert(touches(group@[k as int], ranges@[r as int]));
                return true;
            }
        }
    }
    false
}

/// Whether a line ends with a line feed.
pub open spec fn is_ended(line: Seq<char>) -> bool {
    line.len() > 0 && line.last() == '\n'
}

/// A line of a hunk: its tag, the line, and whether the marker for a missing line
/// feed at the end of the file follows it.
pub struct PatchLine {
    pub tag: char,
    pub line: Seq<char>,
    pub marked: bool,
}

/// A line as it is written: the tag and the line. A line that ends with no line
/// feed gets one, and the marker where there is to be one.
pub open spec fn patch_line(l: PatchLine) -> Seq<char> {
    if is_ended(l.line) {
        seq![l.tag] + l.line
    } else if l.marked {
        seq![l.tag] + l.line + "\n\\ No newline at end of file\n"@
    } else {
        seq![l.tag] + l.line + "\n"@
    }
}

/// Line `i` of a side of the diff, as a line of a hunk. The marker says that the
/// file ends without a line feed, so only the last line of its side can have it.
pub open spec fn tagged_line(tag: char, side: Seq<Seq<char>>, i: int) -> PatchLine {
    PatchLine { tag, line: side[i], marked: i + 1 == side.len() && !is_ended(side[i]) }
}

/// The lines `from..to` of a side of the diff, with their tag.
pub open spec fn tagged(tag: char, side: Seq<Seq<char>>, from: int, to: int) -> Seq<PatchLine> {
    Seq::new((to - from) as nat, |i: int| tagged_line(tag, side, from + i))
}

/// The lines that one step puts into a hunk. Common lines are those of the old
/// side.
pub open spec fn step_lines(
    op: DiffOp,
    old: Seq<Seq<char>>,
    new: Seq<Seq<char>>,
) -> Seq<PatchLine> {
    match op {
        DiffOp::Equal { old_index, len, .. } => tagged(
            ' ',
            old,
            old_index as int,
            old_index + len,
        ),
        DiffOp::Delete { old_index, old_len, .. } => tagged(
            '-',
            old,
            old_index as int,
            old_index + old_len,
        ),
        DiffOp::Insert { new_index, new_len, .. } => tagged(
            '+',
            new,
            new_index as int,
            new_index + new_len,
        ),
        DiffOp::Replace { old_index, old_len, new_index, new_len } => tagged(
            '-',
            old,
            old_index as int,
            old_index + old_len,
        ) + tagged('+', new, new_index as int, new_index + new_len),
    }
}

/// The lines that a group of steps puts into a hunk.
pub open spec fn group_lines(
    group: Seq<DiffOp>,
    old: Seq<Seq<char>>,
    new: Seq<Seq<char>>,
) -> Seq<PatchLine>
    decreases group.len(),
{
    if group.len() == 0 {
        Seq::empty()
    } else {
        group_lines(group.drop_last(), old, new) + step_lines(group.last(), old, new)
    }
}

/// A hunk of a unified diff: where it starts on both sides, counted from zero,
/// how many lines it covers there, and its lines.
pub struct Hunk {
    pub old_start: int,
    pub old_len: int,
    pub new_start: int,
    pub new_len: int,
    pub lines: Seq<PatchLine>,
}

/// The hunk of a group of steps that starts at `new_start` on the new side.
pub open spec fn hunk_of(
    group: Seq<DiffOp>,
    new_start: int,
    old: Seq<Seq<char>>,
    new: Seq<Seq<char>>,
) -> Hunk {
    Hunk {
        old_start: diff::group_start(group),
        old_len: diff::old_total(group),
        new_start,
        new_len: diff::new_total(group),
        lines: group_lines(group, old, new),
    }
}

/// The hunks of groups of steps. Each starts as far down on the new side as on
/// the old, moved by what the hunks before it add and remove.
pub open spec fn hunks_of(
    groups: Seq<Seq<DiffOp>>,
    old: Seq<Seq<char>>,
    new: Seq<Seq<char>>,
) -> Seq<Hunk>
    decreases groups.len(),
{
    if groups.len() == 0 {
        Seq::empty()
    } else {
        let before = groups.drop_last();
        hunks_of(before, old, new).push(
            hunk_of(
                groups.last(),
                diff::group_start(groups.last()) + added_total(before) - removed_total(before),
                old,
                new,
            ),
        )
    }
}

/// Lines of a patch, one after the other.
pub open spec fn body_text(lines: Seq<PatchLine>) -> Seq<char>
    decreases lines.len(),
{
    if lines.len() == 0 {
        Seq::empty()
    } else {
        body_text(lines.drop_last()) + patch_line(lines.last())
    }
}

/// Where a side of a hunk starts by its header: at its first line, counted from
/// one, or, where it has no line, at the line before.
pub open spec fn header_start(start: int, len: int) -> nat {
    if len == 0 {
        start as nat
    } else {
        (start + 1) as nat
    }
}

/// The header of a hunk: where it starts on both sides, and how many lines it
/// covers there.
pub open spec fn hunk_header(hunk: Hunk) -> Seq<char> {
    "@@ -"@ + text::decimal(header_start(hunk.old_start, hunk.old_len)) + ","@ + text::decimal(
        hunk.old_len as nat,
    ) + " +"@ + text::decimal(header_start(hunk.new_start, hunk.new_len)) + ","@ + text::decimal(
        hunk.new_len as nat,
    ) + " @@\n"@
}

/// A hunk as it is written.
pub open spec fn hunk_text(hunk: Hunk) -> Seq<char> {
    hunk_header(hunk) + body_text(hunk.lines)
}

/// The hunks of a patch, one after the other.
pub open spec fn patch_text(hunks: Seq<Hunk>) -> Seq<char>
    decreases hunks.len(),
{
    if hunks.len() == 0 {
        Seq::empty()
    } else {
        patch_text(hunks.drop_last()) + hunk_text(hunks.last())
    }
}

/// The lines of a hunk that it finds on the old side: all but the added ones.
pub open spec fn old_side(lines: Seq<PatchLine>) -> Seq<Seq<char>>
    decreases lines.len(),
{
    if lines.len() == 0 {
        Seq::empty()
    } else if lines.last().tag == '+' {
        old_side(lines.drop_last())
    } else {
        old_side(lines.drop_last()).push(lines.last().line)
    }
}

/// The lines of a hunk that it leaves on the new side: all but the removed ones.
pub open spec fn new_side(lines: Seq<PatchLine>) -> Seq<Seq<char>>
    decreases lines.len(),
{
    if lines.len() == 0 {
        Seq::empty()
    } else if lines.last().tag == '-' {
        new_side(lines.drop_last())
    } else {
        new_side(lines.drop_last()).push(lines.last().line)
    }
}

/// How many lines have this tag.
pub open spec fn tag_count(lines: Seq<PatchLine>, tag: char) -> int
    decreases lines.len(),
{
    if lines.len() == 0 {
        0
    } else {
        tag_count(lines.drop_last(), tag) + if lines.last().tag == tag {
            1int
        } else {
            0int
        }
    }
}

/// How many lines of all the hunks have this tag.
pub open spec fn hunks_tag_count(hunks: Seq<Hunk>, tag: char) -> int
    decreases hunks.len(),
{
    if hunks.len() == 0 {
        0
    } else {
        hunks_tag_count(hunks.drop_last(), tag) + tag_count(hunks.last().lines, tag)
    }
}

/// Whether a hunk fits where it claims to stand: behind `cursor`, within the old
/// lines, on the very lines that it finds there, and at the line of the new text
/// at which it comes out.
pub open spec fn hunk_fits(old: Seq<Seq<char>>, hunk: Hunk, cursor: int, out: int) -> bool {
    &&& cursor <= hunk.old_start
    &&& hunk.old_len >= 0
    &&& hunk.old_start + hunk.old_len <= old.len()
    &&& old_side(hunk.lines) == old.subrange(hunk.old_start, hunk.old_start + hunk.old_len)
    &&& hunk.new_start == out + hunk.old_start - cursor
    &&& hunk.new_len == new_side(hunk.lines).len()
}

/// Applies hunks to lines, from the first to the last: the new lines up to the
/// end of the last hunk, and the old line behind it. `None` where one does not
/// fit.
pub open spec fn applied(old: Seq<Seq<char>>, hunks: Seq<Hunk>) -> Option<(Seq<Seq<char>>, int)>
    decreases hunks.len(),
{
    if hunks.len() == 0 {
        Some((Seq::empty(), 0))
    } else {
        let hunk = hunks.last();
        match applied(old, hunks.drop_last()) {
            None => None,
            Some((out, cursor)) => if hunk_fits(old, hunk, cursor, out.len() as int) {
                Some(
                    (
                        out + old.subrange(cursor, hunk.old_start) + new_side(hunk.lines),
                        hunk.old_start + hunk.old_len,
                    ),
                )
            } else {
                None
            },
        }
    }
}

/// The lines that a patch makes of old lines; `None` where a hunk does not fit.
pub open spec fn apply_patch(old: Seq<Seq<char>>, hunks: Seq<Hunk>) -> Option<Seq<Seq<char>>> {
    match applied(old, hunks) {
        None => None,
        Some((out, cursor)) => Some(out + old.skip(cursor)),
    }
}

/// The text of lines goes part by part.
proof fn lemma_body_concat(a: Seq<PatchLine>, b: Seq<PatchLine>)
    ensures
        body_text(a + b) == body_text(a) + body_text(b),
    decreases b.len(),
{
    if b.len() == 0 {
        assert(a + b == a);
        assert(body_text(a) + body_text(b) == body_text(a));
    } else {
        assert((a + b).drop_last() == a + b.drop_last());
        assert((a + b).last() == b.last());
        lemma_body_concat(a, b.drop_last());
        assert(body_text(a) + (body_text(b.drop_last()) + patch_line(b.last()))
            == (body_text(a) + body_text(b.drop_last())) + patch_line(b.last()));
    }
}

/// Appends one line of a side of the diff to a patch.
fn push_patch_line(out: &mut String, tag: char, lines: &Vec<String>, i: usize)
    requires
        i < lines@.len(),
    ensures
        final(out)@ == old(out)@ + patch_line(tagged_line(tag, text::texts(lines@), i as int)),
{
    let ghost before = out@;
    let ghost l = tagged_line(tag, text::texts(lines@), i as int);
    let line = chars_of(lines[i].as_str());
    assert(line@ == l.line);
    out.push(tag);
    out.append(lines[i].as_str());
    assert(out@ == before + (seq![tag] + l.line));
    if !(line.len() > 0 && line[line.len() - 1] == '\n') {
        if i == lines.len() - 1 {
            out.append("\n\\ No newline at end of file\n");
        } else {
            out.append("\n");
        }
        assert(out@ == before + patch_line(l));
    }
}

/// Appends the lines `from..to` of `lines` to a patch.
fn push_patch_lines(out: &mut String, tag: char, lines: &Vec<String>, from: usize, to: usize)
    requires
        from <= to <= lines@.len(),
    ensures
        final(out)@ == old(out)@ + body_text(
            tagged(tag, text::texts(lines@), from as int, to as int),
        ),
{
    let ghost all = text::texts(lines@);
    let ghost start = out@;
    assert(start + body_text(tagged(tag, all, from as int, from as int)) == start);
    for i in from..to
        invariant
            from <= to <= lines@.len(),
            all == text::texts(lines@),
            out@ == start + body_text(tagged(tag, all, from as int, i as int)),
    {
        push_patch_line(out, tag, lines, i);
        proof {
            let part = tagged(tag, all, from as int, i + 1);
            assert(part.drop_last() == tagged(tag, all, from as int, i as int));
            assert(part.last() == tagged_line(tag, all, i as int));
            assert(out@ == start + (body_text(part.drop_last()) + patch_line(part.last())));
        }
    }
}

/// How many old lines a step covers.
fn op_old_len(op: &DiffOp) -> (len: usize)
    ensures
        len == op.old_len(),
{
    match *op {
        DiffOp::Equal { len, .. } => len,
        DiffOp::Delete { old_len, .. } => old_len,
        DiffOp::Replace { old_len, .. } => old_len,
        DiffOp::Insert { .. } => 0,
    }
}

/// How many new lines a step covers.
fn op_new_len(op: &DiffOp) -> (len: usize)
    ensures
        len == op.new_len(),
{
    match *op {
        DiffOp::Equal { len, .. } => len,
        DiffOp::Insert { new_len, .. } => new_len,
        DiffOp::Replace { new_len, .. } => new_len,
        DiffOp::Delete { .. } => 0,
    }
}

/// The old line that a step starts at.
fn op_start(op: &DiffOp) -> (at: usize)
    ensures
        at == op.old_index(),
{
    match *op {
        DiffOp::Equal { old_index, .. } => old_index,
        DiffOp::Delete { old_index, .. } => old_index,
        DiffOp::Insert { old_index, .. } => old_index,
        DiffOp::Replace { old_index, .. } => old_index,
    }
}

/// The lengths that a group covers are sums of lengths, so none is negative
/// and a front part covers no more than the whole.
proof fn lemma_totals(group: Seq<DiffOp>, k: int)
    requires
        0 <= k <= group.len(),
    ensures
        0 <= diff::old_total(group.take(k)) <= diff::old_total(group),
        0 <= diff::new_total(group.take(k)) <= diff::new_total(group),
    decreases group.len(),
{
    if group.len() == 0 {
        assert(group.take(k) == group);
    } else if k == group.len() {
        assert(group.take(k) == group);
        lemma_totals(group.drop_last(), k - 1);
    } else {
        assert(group.drop_last().take(k) == group.take(k));
        lemma_totals(group.drop_last(), k);
    }
}

/// How many old lines a group covers.
fn group_old_len(group: &Vec<DiffOp>, count: usize) -> (len: usize)
    requires
        diff::old_total(group@) <= count,
    ensures
        len == diff::old_total(group@),
{
    let mut len: usize = 0;
    for k in 0..group.len()
        invariant
            diff::old_total(group@) <= count,
            len == diff::old_total(group@.take(k as int)),
    {
        proof {
            assert(group@.take(k + 1).drop_last() == group@.take(k as int));
            lemma_totals(group@, k + 1);
        }
        len += op_old_len(&group[k]);
    }
    assert(group@.take(group@.len() as int) == group@);
    len
}

/// How many new lines a group covers.
fn group_new_len(group: &Vec<DiffOp>, count: usize) -> (len: usize)
    requires
        diff::new_total(group@) <= count,
    ensures
        len == diff::new_total(group@),
{
    let mut len: usize = 0;
    for k in 0..group.len()
        invariant
            diff::new_total(group@) <= count,
            len == diff::new_total(group@.take(k as int)),
    {
        proof {
            assert(group@.take(k + 1).drop_last() == group@.take(k as int));
            lemma_totals(group@, k + 1);
        }
        len += op_new_len(&group[k]);
    }
    assert(group@.take(group@.len() as int) == group@);
    len
}

/// Appends the lines of one step to a patch.
fn push_step(out: &mut String, diff: &LineDiff, op: &DiffOp)
    requires
        op.in_bounds(diff.old_lines@.len() as int, diff.new_lines@.len() as int),
    ensures
        final(out)@ == old(out)@ + body_text(
            step_lines(*op, text::texts(diff.old_lines@), text::texts(diff.new_lines@)),
        ),
{
    let ghost old = text::texts(diff.old_lines@);
    let ghost new = text::texts(diff.new_lines@);
    let ghost before = out@;
    let old_count: usize = diff.old_lines.len();
    let new_count: usize = diff.new_lines.len();
    match *op {
        DiffOp::Equal { old_index, len, .. } => {
            push_patch_lines(out, ' ', &diff.old_lines, old_index, old_index + len);
        },
        DiffOp::Delete { old_index, old_len, .. } => {
            push_patch_lines(out, '-', &diff.old_lines, old_index, old_index + old_len);
        },
        DiffOp::Insert { new_index, new_len, .. } => {
            push_patch_lines(out, '+', &diff.new_lines, new_index, new_index + new_len);
        },
        DiffOp::Replace { old_index, old_len, new_index, new_len } => {
            push_patch_lines(out, '-', &diff.old_lines, old_index, old_index + old_len);
            push_patch_lines(out, '+', &diff.new_lines, new_index, new_index + new_len);
            proof {
                let gone = tagged('-', old, old_index as int, old_index + old_len);
                let come = tagged('+', new, new_index as int, new_index + new_len);
                lemma_body_concat(gone, come);
                assert(out@ == before + (body_text(gone) + body_text(come)));
            }
        },
    }
}

/// Where a side of a hunk starts by its header.
fn shown_start(start: u128, len: usize) -> (shown: u128)
    requires
        start < u128::MAX,
    ensures
        shown == header_start(start as int, len as int),
{
    if len == 0 {
        start
    } else {
        start + 1
    }
}

/// Emits one group of steps as unified-diff text, with its context. It starts at
/// `new_start` on the new side, counted from zero.
pub fn emit_group(diff: &LineDiff, group: &Vec<DiffOp>, new_start: u128) -> (out: String)
    requires
        group@.len() > 0,
        forall|k: int|
            0 <= k < group@.len() ==> (#[trigger] group@[k]).in_bounds(
                diff.old_lines@.len() as int,
                diff.new_lines@.len() as int,
            ),
        diff::old_total(group@) <= diff.old_lines@.len(),
        diff::new_total(group@) <= diff.new_lines@.len(),
        new_start < u128::MAX,
    ensures
        out@ == hunk_text(
            hunk_of(
                group@,
                new_start as int,
                text::texts(diff.old_lines@),
                text::texts(diff.new_lines@),
            ),
        ),
{
    let ghost old = text::texts(diff.old_lines@);
    let ghost new = text::texts(diff.new_lines@);
    let ghost hunk = hunk_of(group@, new_start as int, old, new);
    let old_len: usize = group_old_len(group, diff.old_lines.len());
    let new_len: usize = group_new_len(group, diff.new_lines.len());
    proof {
        lemma_totals(group@, 0);
        assert(group@.take(0) == Seq::<DiffOp>::empty());
    }
    let mut out = "@@ -".to_string();
    push_decimal(&mut out, shown_start(op_start(&group[0]) as u128, old_len));
    out.append(",");
    push_decimal(&mut out, old_len as u128);
    out.append(" +");
    push_decimal(&mut out, shown_start(new_start, new_len));
    out.append(",");
    push_decimal(&mut out, new_len as u128);
    out.append(" @@\n");
    assert(out@ == hunk_header(hunk));
    let ghost header = out@;
    assert(group@.take(0) == Seq::<DiffOp>::empty());
    assert(header + body_text(group_lines(group@.take(0), old, new)) == header);
    for k in 0..group.len()
        invariant
            forall|k: int|
                0 <= k < group@.len() ==> (#[trigger] group@[k]).in_bounds(
                    diff.old_lines@.len() as int,
                    diff.new_lines@.len() as int,
                ),
            old == text::texts(diff.old_lines@),
            new == text::texts(diff.new_lines@),
            out@ == header + body_text(group_lines(group@.take(k as int), old, new)),
    {
        proof {
            assert(group@[k as int].in_bounds(
                diff.old_lines@.len() as int,
                diff.new_lines@.len() as int,
            ));
        }
        push_step(&mut out, diff, &group[k]);
        proof {
            let part = group@.take(k + 1);
            assert(part.drop_last() == group@.take(k as int));
            assert(part.last() == group@[k as int]);
            lemma_body_concat(
                group_lines(part.drop_last(), old, new),
                step_lines(part.last(), old, new),
            );
            assert(out@ == header + (body_text(group_lines(part.drop_last(), old, new))
                + body_text(step_lines(part.last(), old, new))));
        }
    }
    assert(group@.take(group@.len() as int) == group@);
    out
}

/// Lines put together.
pub open spec fn joined(lines: Seq<Seq<char>>) -> Seq<char>
    decreases lines.len(),
{
    if lines.len() == 0 {
        Seq::empty()
    } else {
        joined(lines.drop_last()) + lines.last()
    }
}

/// Putting lines together goes part by part.
pub proof fn lemma_joined_concat(a: Seq<Seq<char>>, b: Seq<Seq<char>>)
    ensures
        joined(a + b) == joined(a) + joined(b),
    decreases b.len(),
{
    if b.len() == 0 {
        assert(a + b == a);
        assert(joined(a) + joined(b) == joined(a));
    } else {
        assert((a + b).drop_last() == a + b.drop_last());
        assert((a + b).last() == b.last());
        lemma_joined_concat(a, b.drop_last());
        assert(joined(a) + (joined(b.drop_last()) + b.last()) == (joined(a) + joined(
            b.drop_last(),
        )) + b.last());
    }
}

proof fn lemma_joined_one(line: Seq<char>)
    ensures
        joined(seq![line]) == line,
{
    reveal_with_fuel(joined, 2);
    assert(seq![line].drop_last() == Seq::<Seq<char>>::empty());
    assert(joined(seq![line]) == Seq::<char>::empty() + line);
}

/// Appends the lines `from..to`.
fn push_lines(out: &mut String, lines: &Vec<String>, from: usize, to: usize)
    requires
        from <= to <= lines@.len(),
    ensures
        final(out)@ == old(out)@ + joined(text::texts(lines@).subrange(from as int, to as int)),
{
    let ghost all = text::texts(lines@);
    let ghost start = out@;
    assert(start + joined(all.subrange(from as int, from as int)) == start);
    for i in from..to
        invariant
            from <= to <= lines@.len(),
            all == text::texts(lines@),
            out@ == start + joined(all.subrange(from as int, i as int)),
    {
        out.append(lines[i].as_str());
        proof {
            let part = all.subrange(from as int, i + 1);
            assert(part.drop_last() == all.subrange(from as int, i as int));
            assert(part.last() == all[i as int]);
            assert(out@ == start + (joined(part.drop_last()) + part.last()));
        }
    }
}

/// Appends the lines that stand in the result of one step.
fn push_step_result(out: &mut String, diff: &LineDiff, op: &DiffOp)
    requires
        op.in_bounds(diff.old_lines@.len() as int, diff.new_lines@.len() as int),
    ensures
        final(out)@ == old(out)@ + joined(
            diff::step_result(*op, text::texts(diff.old_lines@), text::texts(diff.new_lines@)),
        ),
{
    let old_count: usize = diff.old_lines.len();
    let new_count: usize = diff.new_lines.len();
    let ghost before = out@;
    match *op {
        DiffOp::Equal { old_index, len, .. } => {
            push_lines(out, &diff.old_lines, old_index, old_index + len);
        },
        DiffOp::Delete { .. } => {
            assert(before + joined(Seq::empty()) == before);
        },
        DiffOp::Insert { new_index, new_len, .. } => {
            push_lines(out, &diff.new_lines, new_index, new_index + new_len);
        },
        DiffOp::Replace { new_index, new_len, .. } => {
            push_lines(out, &diff.new_lines, new_index, new_index + new_len);
        },
    }
}

/// Appends the lines that stand in the result of a group of steps.
fn push_group_result(out: &mut String, diff: &LineDiff, group: &Vec<DiffOp>)
    requires
        forall|k: int|
            0 <= k < group@.len() ==> (#[trigger] group@[k]).in_bounds(
                diff.old_lines@.len() as int,
                diff.new_lines@.len() as int,
            ),
    ensures
        final(out)@ == old(out)@ + joined(
            diff::group_result(
                group@,
                text::texts(diff.old_lines@),
                text::texts(diff.new_lines@),
            ),
        ),
{
    let ghost old = text::texts(diff.old_lines@);
    let ghost new = text::texts(diff.new_lines@);
    let ghost before = out@;
    assert(group@.take(0) == Seq::<DiffOp>::empty());
    assert(before + joined(Seq::empty()) == before);
    for k in 0..group.len()
        invariant
            forall|k: int|
                0 <= k < group@.len() ==> (#[trigger] group@[k]).in_bounds(
                    diff.old_lines@.len() as int,
                    diff.new_lines@.len() as int,
                ),
            old == text::texts(diff.old_lines@),
            new == text::texts(diff.new_lines@),
            out@ == before + joined(diff::group_result(group@.take(k as int), old, new)),
    {
        proof {
            assert(group@[k as int].in_bounds(
                diff.old_lines@.len() as int,
                diff.new_lines@.len() as int,
            ));
        }
        push_step_result(out, diff, &group[k]);
        proof {
            let part = group@.take(k + 1);
            assert(part.drop_last() == group@.take(k as int));
            assert(part.last() == group@[k as int]);
            lemma_joined_concat(
                diff::group_result(part.drop_last(), old, new),
                diff::step_result(part.last(), old, new),
            );
            assert(out@ == before + (joined(diff::group_result(part.drop_last(), old, new))
                + joined(diff::step_result(part.last(), old, new))));
        }
    }
    assert(group@.take(group@.len() as int) == group@);
}

/// Appends the lines between `cursor` and a group, and the group's result.
/// Returns the old line behind the group.
fn push_up_to(out: &mut String, diff: &LineDiff, group: &Vec<DiffOp>, cursor: usize) -> (end: usize)
    requires
        group@.len() > 0,
        forall|k: int|
            0 <= k < group@.len() ==> (#[trigger] group@[k]).in_bounds(
                diff.old_lines@.len() as int,
                diff.new_lines@.len() as int,
            ),
        cursor <= diff::group_start(group@),
        0 <= diff::old_total(group@),
        diff::group_end(group@) <= diff.old_lines@.len(),
    ensures
        final(out)@ == old(out)@ + joined(
            text::texts(diff.old_lines@).subrange(cursor as int, diff::group_start(group@)),
        ) + joined(
            diff::group_result(
                group@,
                text::texts(diff.old_lines@),
                text::texts(diff.new_lines@),
            ),
        ),
        end == diff::group_end(group@),
{
    let start: usize = op_start(&group[0]);
    push_lines(out, &diff.old_lines, cursor, start);
    push_group_result(out, diff, group);
    start + group_old_len(group, diff.old_lines.len())
}

/// What one more group means for the splice: it stands behind what is covered,
/// and its gap and its result come behind what is spliced.
proof fn lemma_front_joined(
    groups: Seq<Seq<DiffOp>>,
    old: Seq<Seq<char>>,
    new: Seq<Seq<char>>,
    i: int,
)
    requires
        0 <= i < groups.len(),
        diff::groups_in_bounds(groups, old.len() as int, new.len() as int),
        diff::groups_ordered(groups, old.len() as int),
    ensures
        groups[i].len() > 0,
        forall|k: int|
            0 <= k < groups[i].len() ==> (#[trigger] groups[i][k]).in_bounds(
                old.len() as int,
                new.len() as int,
            ),
        diff::covered(groups.take(i)) <= diff::group_start(groups[i]),
        0 <= diff::old_total(groups[i]),
        diff::group_end(groups[i]) <= old.len(),
        diff::covered(groups.take(i + 1)) == diff::group_end(groups[i]),
        joined(diff::spliced_front(groups.take(i + 1), old, new)) == joined(
            diff::spliced_front(groups.take(i), old, new),
        ) + joined(
            old.subrange(diff::covered(groups.take(i)), diff::group_start(groups[i])),
        ) + joined(diff::group_result(groups[i], old, new)),
{
    let before = diff::spliced_front(groups.take(i), old, new);
    let gap = old.subrange(diff::covered(groups.take(i)), diff::group_start(groups[i]));
    lemma_front_step(groups, old, new, i);
    assert(groups[i].len() > 0);
    assert(groups.take(i + 1).drop_last() == groups.take(i));
    assert(groups.take(i + 1).last() == groups[i]);
    lemma_joined_concat(before, gap);
    lemma_joined_concat(before + gap, diff::group_result(groups[i], old, new));
}

/// Appends the groups' results, each behind the lines before it. Returns the old
/// line behind the last group.
fn push_groups(out: &mut String, diff: &LineDiff, kept: &Vec<Vec<DiffOp>>) -> (end: usize)
    requires
        old(out)@.len() == 0,
        diff::groups_in_bounds(
            diff::group_views(kept@),
            diff.old_lines@.len() as int,
            diff.new_lines@.len() as int,
        ),
        diff::groups_ordered(diff::group_views(kept@), diff.old_lines@.len() as int),
    ensures
        final(out)@ == joined(
            diff::spliced_front(
                diff::group_views(kept@),
                text::texts(diff.old_lines@),
                text::texts(diff.new_lines@),
            ),
        ),
        end == diff::covered(diff::group_views(kept@)),
        end <= diff.old_lines@.len(),
{
    let ghost groups = diff::group_views(kept@);
    let ghost old_lines = text::texts(diff.old_lines@);
    let ghost new_lines = text::texts(diff.new_lines@);
    let mut cursor: usize = 0;
    assert(groups.take(0) == Seq::<Seq<DiffOp>>::empty());
    assert(out@ == Seq::<char>::empty());
    for i in 0..kept.len()
        invariant
            groups == diff::group_views(kept@),
            old_lines == text::texts(diff.old_lines@),
            new_lines == text::texts(diff.new_lines@),
            diff::groups_in_bounds(groups, old_lines.len() as int, new_lines.len() as int),
            diff::groups_ordered(groups, old_lines.len() as int),
            cursor == diff::covered(groups.take(i as int)),
            cursor <= old_lines.len(),
            out@ == joined(diff::spliced_front(groups.take(i as int), old_lines, new_lines)),
    {
        proof {
            lemma_front_joined(groups, old_lines, new_lines, i as int);
            assert(groups[i as int] == kept@[i as int]@);
        }
        cursor = push_up_to(out, diff, &kept[i], cursor);
    }
    assert(groups.take(groups.len() as int) == groups);
    cursor
}

/// Reconstructs the content keeping only the kept groups' changes.
///
/// The lines keep their terminators, so a trailing newline (or its absence)
/// survives the splice.
pub fn apply_kept(diff: &LineDiff, kept: &Vec<Vec<DiffOp>>) -> (out: String)
    requires
        diff::groups_in_bounds(
            diff::group_views(kept@),
            diff.old_lines@.len() as int,
            diff.new_lines@.len() as int,
        ),
        diff::groups_ordered(diff::group_views(kept@), diff.old_lines@.len() as int),
    ensures
        out@ == joined(
            diff::spliced(
                diff::group_views(kept@),
                text::texts(diff.old_lines@),
                text::texts(diff.new_lines@),
            ),
        ),
{
    let ghost groups = diff::group_views(kept@);
    let ghost old = text::texts(diff.old_lines@);
    let ghost new = text::texts(diff.new_lines@);
    let mut out = String::new();
    let end: usize = push_groups(&mut out, diff, kept);
    push_lines(&mut out, &diff.old_lines, end, diff.old_lines.len());
    proof {
        assert(old.subrange(end as int, old.len() as int) == old.skip(end as int));
        lemma_joined_concat(diff::spliced_front(groups, old, new), old.skip(end as int));
    }
    out
}

/// How many lines a group of steps adds.
pub open spec fn group_added(group: Seq<DiffOp>) -> int
    decreases group.len(),
{
    if group.len() == 0 {
        0
    } else {
        group_added(group.drop_last()) + group.last().added()
    }
}

/// How many lines a group of steps removes.
pub open spec fn group_removed(group: Seq<DiffOp>) -> int
    decreases group.len(),
{
    if group.len() == 0 {
        0
    } else {
        group_removed(group.drop_last()) + group.last().removed()
    }
}

/// How many lines the groups add.
pub open spec fn added_total(groups: Seq<Seq<DiffOp>>) -> int
    decreases groups.len(),
{
    if groups.len() == 0 {
        0
    } else {
        added_total(groups.drop_last()) + group_added(groups.last())
    }
}

/// How many lines the groups remove.
pub open spec fn removed_total(groups: Seq<Seq<DiffOp>>) -> int
    decreases groups.len(),
{
    if groups.len() == 0 {
        0
    } else {
        removed_total(groups.drop_last()) + group_removed(groups.last())
    }
}

/// The groups that are in scope, in their order.
pub open spec fn kept_groups(
    groups: Seq<Seq<DiffOp>>,
    ranges: Seq<LineRange>,
) -> Seq<Seq<DiffOp>>
    decreases groups.len(),
{
    if groups.len() == 0 {
        Seq::empty()
    } else if in_scope(groups.last(), ranges) {
        kept_groups(groups.drop_last(), ranges).push(groups.last())
    } else {
        kept_groups(groups.drop_last(), ranges)
    }
}

/// A clipped diff: what is left of a file's changes once those out of scope
/// are dropped.
pub struct ClipView {
    pub patch: Seq<char>,
    pub added: int,
    pub removed: int,
    pub hunks_total: int,
    pub hunks_kept: int,
    pub new_content: Seq<char>,
}

/// The hunks of the clipped diff of two texts.
pub open spec fn clip_hunks(
    original: Seq<char>,
    formatted: Seq<char>,
    ranges: Seq<LineRange>,
) -> Seq<Hunk> {
    hunks_of(
        kept_groups(diff::line_groups(original, formatted, CONTEXT as nat), ranges),
        text::pieces(original),
        text::pieces(formatted),
    )
}

/// Whether hunks, applied to a text, give this content.
pub open spec fn leads_to(original: Seq<char>, hunks: Seq<Hunk>, content: Seq<char>) -> bool {
    match apply_patch(text::pieces(original), hunks) {
        Some(lines) => joined(lines) == content,
        None => false,
    }
}

/// The clipped diff that a list of groups gives.
pub open spec fn clip_of(
    original: Seq<char>,
    formatted: Seq<char>,
    groups: Seq<Seq<DiffOp>>,
    ranges: Seq<LineRange>,
) -> ClipView {
    let old = text::pieces(original);
    let new = text::pieces(formatted);
    let kept = kept_groups(groups, ranges);
    ClipView {
        patch: patch_text(hunks_of(kept, old, new)),
        added: added_total(kept),
        removed: removed_total(kept),
        hunks_total: groups.len() as int,
        hunks_kept: kept.len() as int,
        new_content: joined(diff::spliced(kept, old, new)),
    }
}

/// The clipped diff of two texts.
pub open spec fn clip(
    original: Seq<char>,
    formatted: Seq<char>,
    ranges: Seq<LineRange>,
) -> ClipView {
    clip_of(original, formatted, diff::line_groups(original, formatted, CONTEXT as nat), ranges)
}

/// What a group adds and removes is part of what it covers.
proof fn lemma_group_sums(group: Seq<DiffOp>, k: int)
    requires
        0 <= k <= group.len(),
    ensures
        0 <= group_added(group.take(k)) <= diff::new_total(group.take(k)) <= diff::new_total(group),
        0 <= group_removed(group.take(k)) <= diff::old_total(group.take(k)) <= diff::old_total(
            group,
        ),
    decreases k,
{
    lemma_totals(group, k);
    if k > 0 {
        lemma_group_sums(group, k - 1);
        assert(group.take(k).drop_last() == group.take(k - 1));
    } else {
        assert(group.take(0) == Seq::<DiffOp>::empty());
    }
}

/// A group's result has as many lines as the group covers on the new side.
proof fn lemma_group_result_len(
    group: Seq<DiffOp>,
    old: Seq<Seq<char>>,
    new: Seq<Seq<char>>,
)
    requires
        forall|k: int|
            0 <= k < group.len() ==> (#[trigger] group[k]).in_bounds(
                old.len() as int,
                new.len() as int,
            ),
    ensures
        diff::group_result(group, old, new).len() == diff::new_total(group),
    decreases group.len(),
{
    if group.len() > 0 {
        let front = group.drop_last();
        assert forall|k: int| 0 <= k < front.len() implies (#[trigger] front[k]).in_bounds(
            old.len() as int,
            new.len() as int,
        ) by {
            assert(group[k].in_bounds(old.len() as int, new.len() as int));
        }
        lemma_group_result_len(front, old, new);
        assert(group[group.len() - 1].in_bounds(old.len() as int, new.len() as int));
    }
}

/// The lines in front of the end of a group are at least those that the groups
/// up to it add, and a front part has no more of them than the whole.
proof fn lemma_front_len(
    groups: Seq<Seq<DiffOp>>,
    old: Seq<Seq<char>>,
    new: Seq<Seq<char>>,
    i: int,
)
    requires
        0 <= i <= groups.len(),
        diff::groups_in_bounds(groups, old.len() as int, new.len() as int),
        diff::groups_ordered(groups, old.len() as int),
    ensures
        diff::spliced_front(groups.take(i), old, new).len() <= diff::spliced_front(
            groups,
            old,
            new,
        ).len(),
    decreases groups.len() - i,
{
    if i < groups.len() {
        lemma_front_step(groups, old, new, i);
        lemma_front_len(groups, old, new, i + 1);
    } else {
        assert(groups.take(i) == groups);
    }
}

/// One more group adds its result to the lines, and moves the end on.
proof fn lemma_front_step(
    groups: Seq<Seq<DiffOp>>,
    old: Seq<Seq<char>>,
    new: Seq<Seq<char>>,
    i: int,
)
    requires
        0 <= i < groups.len(),
        diff::groups_in_bounds(groups, old.len() as int, new.len() as int),
        diff::groups_ordered(groups, old.len() as int),
    ensures
        diff::spliced_front(groups.take(i), old, new).len() + diff::new_total(groups[i])
            <= diff::spliced_front(groups.take(i + 1), old, new).len(),
        0 <= diff::covered(groups.take(i)),
        diff::covered(groups.take(i)) + diff::old_total(groups[i]) <= diff::covered(groups.take(i
            + 1))
            <= old.len(),
        0 <= diff::old_total(groups[i]),
        0 <= diff::new_total(groups[i]),
{
    let part = groups.take(i + 1);
    assert(part.drop_last() == groups.take(i));
    assert(part.last() == groups[i]);
    assert(groups[i].len() > 0);
    assert forall|k: int| 0 <= k < groups[i].len() implies (
    #[trigger] groups[i][k]).in_bounds(old.len() as int, new.len() as int) by {}
    lemma_group_result_len(groups[i], old, new);
    lemma_totals(groups[i], 0);
    assert(groups[i].take(0) == Seq::<DiffOp>::empty());
    if i > 0 {
        assert(groups.take(i).last() == groups[i - 1]);
        assert(groups[i - 1].len() > 0);
        lemma_totals(groups[i - 1], 0);
        assert(groups[i - 1].take(0) == Seq::<DiffOp>::empty());
    }
}

/// No group covers more than `count` new lines.
spec fn new_totals_within(groups: Seq<Seq<DiffOp>>, count: int) -> bool {
    forall|i: int| 0 <= i < groups.len() ==> diff::new_total(#[trigger] groups[i]) <= count
}

/// What the kept groups have from all of them: they stay within the lines,
/// follow one another, and cover and add no more than there is.
proof fn lemma_kept(
    groups: Seq<Seq<DiffOp>>,
    old: Seq<Seq<char>>,
    new: Seq<Seq<char>>,
    ranges: Seq<LineRange>,
    i: int,
)
    requires
        0 <= i <= groups.len(),
        diff::describes(groups, old, new),
    ensures
        ({
            let kept = kept_groups(groups.take(i), ranges);
            &&& diff::groups_in_bounds(kept, old.len() as int, new.len() as int)
            &&& diff::groups_ordered(kept, old.len() as int)
            &&& diff::covered(kept) <= diff::covered(groups.take(i))
            &&& added_total(kept) <= diff::spliced_front(groups.take(i), old, new).len()
            &&& added_total(kept) <= new.len()
            &&& new_totals_within(kept, new.len() as int)
        }),
    decreases i,
{
    let part = groups.take(i);
    let now = kept_groups(part, ranges);
    lemma_front_len(groups, old, new, i);
    if i > 0 {
        lemma_kept(groups, old, new, ranges, i - 1);
        lemma_front_step(groups, old, new, i - 1);
        let group = groups[i - 1];
        let before = kept_groups(groups.take(i - 1), ranges);
        assert(part.drop_last() == groups.take(i - 1));
        assert(part.last() == group);
        assert(group.len() > 0);
        law_hunk_lengths(group);
        if in_scope(group, ranges) {
            assert(now == before.push(group));
            assert(now.drop_last() == before);
            lemma_in_order(before, group, old.len() as int, new.len() as int, groups, i - 1);
        }
    } else {
        assert(part == Seq::<Seq<DiffOp>>::empty());
        assert(now == Seq::<Seq<DiffOp>>::empty());
    }
}

/// The kept groups stay within the lines.
pub proof fn lemma_kept_in_bounds(
    groups: Seq<Seq<DiffOp>>,
    old: Seq<Seq<char>>,
    new: Seq<Seq<char>>,
    ranges: Seq<LineRange>,
)
    requires
        diff::describes(groups, old, new),
    ensures
        diff::groups_in_bounds(
            kept_groups(groups, ranges),
            old.len() as int,
            new.len() as int,
        ),
{
    lemma_kept(groups, old, new, ranges, groups.len() as int);
    assert(groups.take(groups.len() as int) == groups);
}

/// One more group behind groups that are in order.
proof fn lemma_in_order(
    before: Seq<Seq<DiffOp>>,
    group: Seq<DiffOp>,
    old: int,
    new: int,
    groups: Seq<Seq<DiffOp>>,
    i: int,
)
    requires
        0 <= i < groups.len(),
        group == groups[i],
        diff::groups_in_bounds(groups, old, new),
        diff::groups_ordered(groups, old),
        diff::groups_in_bounds(before, old, new),
        diff::groups_ordered(before, old),
        diff::covered(before) <= diff::covered(groups.take(i)),
    ensures
        diff::groups_in_bounds(before.push(group), old, new),
        diff::groups_ordered(before.push(group), old),
{
    let now = before.push(group);
    assert(groups[i].len() > 0);
    assert forall|a: int, k: int| 0 <= a < now.len() && 0 <= k < now[a].len() implies (
    #[trigger] now[a][k]).in_bounds(old, new) by {
        if a < before.len() {
            assert(before[a][k].in_bounds(old, new));
        } else {
            assert(groups[i][k].in_bounds(old, new));
        }
    }
    assert forall|a: int| 0 <= a < now.len() implies #[trigger] now[a].len() > 0 by {
        if a < before.len() {
            assert(before[a].len() > 0);
        }
    }
    assert forall|a: int| 0 <= a < now.len() implies {
        &&& diff::covered(now.take(a)) <= diff::group_start(#[trigger] now[a])
        &&& diff::group_end(now[a]) <= old
    } by {
        if a < before.len() {
            assert(now[a] == before[a]);
            assert(now.take(a) == before.take(a));
        } else {
            assert(now.take(a) == before);
            assert(diff::covered(groups.take(i)) <= diff::group_start(groups[i]));
        }
    }
}

/// Groups in order remove no more lines than stand before their end.
proof fn lemma_removed_within(
    groups: Seq<Seq<DiffOp>>,
    old: Seq<Seq<char>>,
    new: Seq<Seq<char>>,
    i: int,
)
    requires
        0 <= i <= groups.len(),
        diff::groups_in_bounds(groups, old.len() as int, new.len() as int),
        diff::groups_ordered(groups, old.len() as int),
    ensures
        0 <= removed_total(groups.take(i)) <= diff::covered(groups.take(i)) <= old.len(),
        0 <= added_total(groups.take(i)),
    decreases i,
{
    if i > 0 {
        lemma_removed_within(groups, old, new, i - 1);
        lemma_front_step(groups, old, new, i - 1);
        assert(groups.take(i).drop_last() == groups.take(i - 1));
        assert(groups.take(i).last() == groups[i - 1]);
        law_hunk_lengths(groups[i - 1]);
    }
}

/// A front part of groups adds no more than all of them.
proof fn lemma_added_monotone(groups: Seq<Seq<DiffOp>>, i: int)
    requires
        0 <= i <= groups.len(),
    ensures
        added_total(groups.take(i)) <= added_total(groups),
    decreases groups.len() - i,
{
    if i < groups.len() {
        lemma_added_monotone(groups, i + 1);
        assert(groups.take(i + 1).drop_last() == groups.take(i));
        assert(groups.take(i + 1).last() == groups[i]);
        law_hunk_lengths(groups[i]);
    } else {
        assert(groups.take(i) == groups);
    }
}

/// How many lines a group adds.
fn group_added_lines(group: &Vec<DiffOp>, count: usize) -> (added: usize)
    requires
        diff::new_total(group@) <= count,
    ensures
        added == group_added(group@),
{
    let mut added: usize = 0;
    for k in 0..group.len()
        invariant
            diff::new_total(group@) <= count,
            added == group_added(group@.take(k as int)),
    {
        proof {
            lemma_group_sums(group@, k + 1);
            assert(group@.take(k + 1).drop_last() == group@.take(k as int));
        }
        match group[k] {
            DiffOp::Insert { new_len, .. } => {
                added += new_len;
            },
            DiffOp::Replace { new_len, .. } => {
                added += new_len;
            },
            _ => {},
        }
    }
    assert(group@.take(group@.len() as int) == group@);
    added
}

/// How many lines a group removes.
fn group_removed_lines(group: &Vec<DiffOp>, count: usize) -> (removed: usize)
    requires
        diff::old_total(group@) <= count,
    ensures
        removed == group_removed(group@),
{
    let mut removed: usize = 0;
    for k in 0..group.len()
        invariant
            diff::old_total(group@) <= count,
            removed == group_removed(group@.take(k as int)),
    {
        proof {
            lemma_group_sums(group@, k + 1);
            assert(group@.take(k + 1).drop_last() == group@.take(k as int));
        }
        match group[k] {
            DiffOp::Delete { old_len, .. } => {
                removed += old_len;
            },
            DiffOp::Replace { old_len, .. } => {
                removed += old_len;
            },
            _ => {},
        }
    }
    assert(group@.take(group@.len() as int) == group@);
    removed
}

/// Picks the groups that are in scope.
fn keep_groups(diff: &LineDiff, ranges: &[LineRange]) -> (kept: Vec<Vec<DiffOp>>)
    requires
        diff::groups_in_bounds(
            diff::group_views(diff.groups@),
            diff.old_lines@.len() as int,
            diff.new_lines@.len() as int,
        ),
    ensures
        diff::group_views(kept@) == kept_groups(diff::group_views(diff.groups@), ranges@),
{
    let ghost groups = diff::group_views(diff.groups@);
    let old_count: usize = diff.old_lines.len();
    let mut kept: Vec<Vec<DiffOp>> = Vec::new();
    assert(groups.take(0) == Seq::<Seq<DiffOp>>::empty());
    assert(diff::group_views(kept@) == Seq::<Seq<DiffOp>>::empty());
    for i in 0..diff.groups.len()
        invariant
            groups == diff::group_views(diff.groups@),
            old_count == diff.old_lines@.len(),
            diff::groups_in_bounds(
                groups,
                diff.old_lines@.len() as int,
                diff.new_lines@.len() as int,
            ),
            diff::group_views(kept@) == kept_groups(groups.take(i as int), ranges@),
    {
        let group = &diff.groups[i];
        proof {
            assert(group@ == groups[i as int]);
            assert(groups.take(i + 1).drop_last() == groups.take(i as int));
            assert forall|k: int| 0 <= k < group@.len() implies (
            #[trigger] group@[k]).old_index() + group@[k].old_len() <= usize::MAX by {
                assert(groups[i as int][k].in_bounds(
                    diff.old_lines@.len() as int,
                    diff.new_lines@.len() as int,
                ));
            }
        }
        if group_in_scope(group, ranges) {
            let ghost before = diff::group_views(kept@);
            let copy = group.clone();
            assert(copy@ == group@);
            kept.push(copy);
            assert(diff::group_views(kept@) == before.push(group@));
        }
    }
    assert(groups.take(groups.len() as int) == groups);
    kept
}

/// Clips a diff to the ranges. Returns the patch, the added and removed lines,
/// how many hunks there were and how many are kept, and the new content.
pub fn clip_diff(
    diff: &LineDiff,
    ranges: &[LineRange],
) -> (clipped: (String, usize, usize, usize, usize, String))
    requires
        diff::describes(diff::group_views(diff.groups@), text::texts(diff.old_lines@),
            text::texts(diff.new_lines@)),
    ensures
        ({
            let old = text::texts(diff.old_lines@);
            let new = text::texts(diff.new_lines@);
            let kept = kept_groups(diff::group_views(diff.groups@), ranges@);
            &&& clipped.0@ == patch_text(hunks_of(kept, old, new))
            &&& clipped.1 == added_total(kept)
            &&& clipped.2 == removed_total(kept)
            &&& clipped.3 == diff.groups@.len()
            &&& clipped.4 == kept.len()
            &&& clipped.5@ == joined(diff::spliced(kept, old, new))
            &&& apply_patch(old, hunks_of(kept, old, new)) == Some(diff::spliced(kept, old, new))
        }),
{
    let ghost old = text::texts(diff.old_lines@);
    let ghost new = text::texts(diff.new_lines@);
    let ghost groups = diff::group_views(diff.groups@);
    let old_count: usize = diff.old_lines.len();
    let new_count: usize = diff.new_lines.len();
    let kept = keep_groups(diff, ranges);
    let ghost chosen = diff::group_views(kept@);
    proof {
        lemma_kept(groups, old, new, ranges@, groups.len() as int);
        assert(groups.take(groups.len() as int) == groups);
        lemma_kept_in_place(groups, old, new, ranges@);
        lemma_patch_applies(chosen, old, new);
    }
    let mut patch = String::new();
    let mut added: usize = 0;
    let mut removed: usize = 0;
    assert(chosen.take(0) == Seq::<Seq<DiffOp>>::empty());
    for i in 0..kept.len()
        invariant
            old == text::texts(diff.old_lines@),
            new == text::texts(diff.new_lines@),
            chosen == diff::group_views(kept@),
            old_count == old.len(),
            new_count == new.len(),
            diff::groups_in_bounds(chosen, old_count as int, new_count as int),
            diff::groups_ordered(chosen, old_count as int),
            new_totals_within(chosen, new_count as int),
            added_total(chosen) <= new_count,
            patch@ == patch_text(hunks_of(chosen.take(i as int), old, new)),
            added == added_total(chosen.take(i as int)),
            removed == removed_total(chosen.take(i as int)),
    {
        let group = &kept[i];
        proof {
            assert(group@ == chosen[i as int]);
            assert(chosen[i as int].len() > 0);
            assert(diff::new_total(chosen[i as int]) <= new_count);
            assert forall|k: int| 0 <= k < group@.len() implies (
            #[trigger] group@[k]).in_bounds(old_count as int, new_count as int) by {
                assert(chosen[i as int][k].in_bounds(old_count as int, new_count as int));
            }
            lemma_front_step(chosen, old, new, i as int);
            lemma_removed_within(chosen, old, new, i as int);
            lemma_added_monotone(chosen, i + 1);
            assert(chosen.take(i + 1).drop_last() == chosen.take(i as int));
            assert(chosen.take(i + 1).last() == group@);
            law_hunk_lengths(group@);
        }
        let new_start: u128 = op_start(&group[0]) as u128 - removed as u128 + added as u128;
        let hunk = emit_group(diff, group, new_start);
        patch.append(hunk.as_str());
        proof {
            let hunks = hunks_of(chosen.take(i + 1), old, new);
            assert(hunks.drop_last() == hunks_of(chosen.take(i as int), old, new));
        }
        added += group_added_lines(group, new_count);
        removed += group_removed_lines(group, old_count);
    }
    assert(chosen.take(chosen.len() as int) == chosen);
    let new_content = apply_kept(diff, &kept);
    (patch, added, removed, diff.groups.len(), kept.len(), new_content)
}

/// Builds the clipped patch for one file. Returns the patch, the added and
/// removed lines, how many hunks there were and how many are kept, and the new
/// content.
pub fn build_clipped(
    original: &str,
    formatted: &str,
    ranges: &[LineRange],
) -> (clipped: (String, usize, usize, usize, usize, String))
    requires
        text::pieces(original@).len() + text::pieces(formatted@).len() <= u32::MAX,
    ensures
        ({
            let expected = clip(original@, formatted@, ranges@);
            &&& clipped.0@ == expected.patch
            &&& clipped.1 == expected.added
            &&& clipped.2 == expected.removed
            &&& clipped.3 == expected.hunks_total
            &&& clipped.4 == expected.hunks_kept
            &&& clipped.5@ == expected.new_content
        }),
        diff::describes(
            diff::line_groups(original@, formatted@, CONTEXT as nat),
            text::pieces(original@),
            text::pieces(formatted@),
        ),
        leads_to(original@, clip_hunks(original@, formatted@, ranges@), clipped.5@),
        unified::makes(original@, clipped.0@, clipped.5@),
        ranges@.len() == 0 ==> clipped.5@ == formatted@,
        clipped.4 == 0 ==> clipped.0@.len() == 0 && clipped.5@ == original@,
{
    let diff = line_diff(original, formatted, CONTEXT);
    let clipped = clip_diff(&diff, ranges);
    proof {
        let groups = diff::group_views(diff.groups@);
        let old = text::pieces(original@);
        let new = text::pieces(formatted@);
        unified::law_patch_reads_back(original@, formatted@, groups, ranges@);
        if ranges@.len() == 0 {
            assert(ranges@ == Seq::<LineRange>::empty());
            law_whole_file(original@, formatted@, groups);
        }
        if clipped.4 == 0 {
            let kept = kept_groups(groups, ranges@);
            assert(kept == Seq::<Seq<DiffOp>>::empty());
            lemma_pieces_joined(original@);
            assert(diff::spliced(kept, old, new) == old);
        }
    }
    clipped
}

/// The lines of a text, put together, are the text.
pub proof fn lemma_pieces_joined(t: Seq<char>)
    ensures
        joined(text::pieces(t)) == t,
    decreases t.len(),
{
    if t.len() > 0 {
        text::lemma_first_of_bounds(t, '\n');
        let end = text::piece_end(t);
        lemma_pieces_joined(t.skip(end));
        lemma_joined_concat(seq![t.take(end)], text::pieces(t.skip(end)));
        lemma_joined_one(t.take(end));
        assert(t.take(end) + t.skip(end) == t);
    } else {
        assert(t == Seq::<char>::empty());
    }
}

proof fn lemma_kept_all(groups: Seq<Seq<DiffOp>>)
    ensures
        kept_groups(groups, Seq::empty()) == groups,
    decreases groups.len(),
{
    if groups.len() > 0 {
        lemma_kept_all(groups.drop_last());
        assert(groups.drop_last().push(groups.last()) == groups);
    }
}

/// Without ranges the whole file is formatted: whatever diff of the two texts
/// was found, the new content is the formatter's output.
pub proof fn law_whole_file(
    original: Seq<char>,
    formatted: Seq<char>,
    groups: Seq<Seq<DiffOp>>,
)
    requires
        diff::describes(groups, text::pieces(original), text::pieces(formatted)),
    ensures
        clip_of(original, formatted, groups, Seq::empty()).new_content == formatted,
        clip_of(original, formatted, groups, Seq::empty()).hunks_kept == groups.len(),
{
    lemma_kept_all(groups);
    lemma_pieces_joined(formatted);
}

/// Where no group of changes is in scope, nothing changes.
pub proof fn law_out_of_scope_unchanged(
    original: Seq<char>,
    formatted: Seq<char>,
    groups: Seq<Seq<DiffOp>>,
    ranges: Seq<LineRange>,
)
    requires
        forall|i: int| 0 <= i < groups.len() ==> !in_scope(#[trigger] groups[i], ranges),
    ensures
        ({
            let clipped = clip_of(original, formatted, groups, ranges);
            &&& clipped.new_content == original
            &&& clipped.patch.len() == 0
            &&& clipped.added == 0
            &&& clipped.removed == 0
            &&& clipped.hunks_kept == 0
        }),
    decreases groups.len(),
{
    if groups.len() > 0 {
        let front = groups.drop_last();
        assert forall|i: int| 0 <= i < front.len() implies !in_scope(#[trigger] front[i],
            ranges) by {
            assert(!in_scope(groups[i], ranges));
        }
        assert(!in_scope(groups[groups.len() - 1], ranges));
        law_out_of_scope_unchanged(original, formatted, front, ranges);
    } else {
        lemma_pieces_joined(original);
        let old = text::pieces(original);
        assert(diff::spliced(groups, old, text::pieces(formatted)) == old);
    }
}

/// Exactly the groups in scope are kept: each kept group is a group of the diff
/// and in scope, and each group in scope is kept.
pub proof fn law_kept_iff_in_scope(groups: Seq<Seq<DiffOp>>, ranges: Seq<LineRange>)
    ensures
        forall|i: int|
            0 <= i < groups.len() && in_scope(#[trigger] groups[i], ranges) ==> kept_groups(
                groups,
                ranges,
            ).contains(groups[i]),
        forall|i: int|
            0 <= i < kept_groups(groups, ranges).len() ==> {
                &&& in_scope(#[trigger] kept_groups(groups, ranges)[i], ranges)
                &&& groups.contains(kept_groups(groups, ranges)[i])
            },
        kept_groups(groups, ranges).len() <= groups.len(),
    decreases groups.len(),
{
    if groups.len() > 0 {
        let front = groups.drop_last();
        let last = groups.last();
        let before = kept_groups(front, ranges);
        let kept = kept_groups(groups, ranges);
        law_kept_iff_in_scope(front, ranges);
        assert forall|i: int|
            0 <= i < groups.len() && in_scope(#[trigger] groups[i], ranges) implies kept.contains(
            groups[i],
        ) by {
            if i < front.len() {
                assert(front[i] == groups[i]);
                let at = choose|at: int| 0 <= at < before.len() && before[at] == groups[i];
                assert(kept[at] == groups[i]);
            } else {
                assert(kept[kept.len() - 1] == groups[i]);
            }
        }
        assert forall|i: int| 0 <= i < kept.len() implies {
            &&& in_scope(#[trigger] kept[i], ranges)
            &&& groups.contains(kept[i])
        } by {
            if i < before.len() {
                assert(kept[i] == before[i]);
                let at = choose|at: int| 0 <= at < front.len() && front[at] == before[i];
                assert(groups[at] == kept[i]);
            } else {
                assert(groups[groups.len() - 1] == kept[i]);
            }
        }
    }
}

/// The lengths in a hunk's header agree with its lines: what is neither added
/// nor removed counts on both sides.
pub proof fn law_hunk_lengths(group: Seq<DiffOp>)
    ensures
        diff::old_total(group) - group_removed(group)
            == diff::new_total(group) - group_added(group),
        diff::old_total(group) >= group_removed(group) >= 0,
        diff::new_total(group) >= group_added(group) >= 0,
    decreases group.len(),
{
    if group.len() > 0 {
        law_hunk_lengths(group.drop_last());
    }
}

/// How far the lines behind the groups that end at or before line `x` move.
pub open spec fn moved_by(groups: Seq<Seq<DiffOp>>, x: int) -> int
    decreases groups.len(),
{
    if groups.len() == 0 {
        0
    } else if diff::group_end(groups.last()) <= x {
        moved_by(groups.drop_last(), x)
            + diff::new_total(groups.last()) - diff::old_total(groups.last())
    } else {
        moved_by(groups.drop_last(), x)
    }
}

/// The front part of a splice has as many lines as it covers, moved by what
/// the groups add and remove.
proof fn lemma_front_count(
    groups: Seq<Seq<DiffOp>>,
    old: Seq<Seq<char>>,
    new: Seq<Seq<char>>,
    i: int,
)
    requires
        0 <= i <= groups.len(),
        diff::groups_in_bounds(groups, old.len() as int, new.len() as int),
        diff::groups_ordered(groups, old.len() as int),
    ensures
        diff::spliced_front(groups.take(i), old, new).len() == diff::covered(groups.take(i))
            + added_total(groups.take(i)) - removed_total(groups.take(i)),
        0 <= diff::covered(groups.take(i)) <= old.len(),
    decreases i,
{
    let part = groups.take(i);
    if i > 0 {
        lemma_front_count(groups, old, new, i - 1);
        lemma_front_step(groups, old, new, i - 1);
        assert(part.drop_last() == groups.take(i - 1));
        assert(part.last() == groups[i - 1]);
        assert(groups[i - 1].len() > 0);
        assert forall|k: int| 0 <= k < groups[i - 1].len() implies (
        #[trigger] groups[i - 1][k]).in_bounds(old.len() as int, new.len() as int) by {}
        lemma_group_result_len(groups[i - 1], old, new);
        law_hunk_lengths(groups[i - 1]);
    }
}

/// The new content has as many lines as the original, plus those that the kept
/// groups add, less those that they remove.
pub proof fn law_line_count(
    groups: Seq<Seq<DiffOp>>,
    old: Seq<Seq<char>>,
    new: Seq<Seq<char>>,
)
    requires
        diff::groups_in_bounds(groups, old.len() as int, new.len() as int),
        diff::groups_ordered(groups, old.len() as int),
    ensures
        diff::spliced(groups, old, new).len() == old.len() + added_total(groups)
            - removed_total(groups),
{
    lemma_front_count(groups, old, new, groups.len() as int);
    assert(groups.take(groups.len() as int) == groups);
}

/// A line that no kept group covers stands unchanged in the new content, moved
/// by what the groups before it add and remove.
pub proof fn law_outside_untouched(
    groups: Seq<Seq<DiffOp>>,
    old: Seq<Seq<char>>,
    new: Seq<Seq<char>>,
    x: int,
)
    requires
        diff::groups_in_bounds(groups, old.len() as int, new.len() as int),
        diff::groups_ordered(groups, old.len() as int),
        0 <= x < old.len(),
        forall|i: int|
            0 <= i < groups.len() ==> x < diff::group_start(#[trigger] groups[i])
                || diff::group_end(groups[i])
                <= x,
    ensures
        0 <= x + moved_by(groups, x) < diff::spliced(groups, old, new).len(),
        diff::spliced(groups, old, new)[x + moved_by(groups, x)] == old[x],
{
    let n = groups.len() as int;
    assert(groups.take(n) == groups);
    lemma_front_count(groups, old, new, n);
    if diff::covered(groups) <= x {
        lemma_moved_by_all(groups, old, new, x, n);
    } else {
        lemma_untouched_front(groups, old, new, x, n);
    }
}

proof fn lemma_untouched_front(
    groups: Seq<Seq<DiffOp>>,
    old: Seq<Seq<char>>,
    new: Seq<Seq<char>>,
    x: int,
    i: int,
)
    requires
        0 <= i <= groups.len(),
        diff::groups_in_bounds(groups, old.len() as int, new.len() as int),
        diff::groups_ordered(groups, old.len() as int),
        0 <= x < old.len(),
        forall|i: int|
            0 <= i < groups.len() ==> x < diff::group_start(#[trigger] groups[i])
                || diff::group_end(groups[i])
                <= x,
        x < diff::covered(groups.take(i)),
    ensures
        ({
            let front = diff::spliced_front(groups.take(i), old, new);
            let at = x + moved_by(groups.take(i), x);
            &&& 0 <= at < front.len()
            &&& front[at] == old[x]
        }),
    decreases i,
{
    let part = groups.take(i);
    assert(i > 0);
    let group = groups[i - 1];
    assert(part.drop_last() == groups.take(i - 1));
    assert(part.last() == group);
    lemma_front_step(groups, old, new, i - 1);
    lemma_front_count(groups, old, new, i - 1);
    assert(x < diff::group_start(group) || diff::group_end(group) <= x);
    assert(x < diff::group_start(group));
    if x < diff::covered(groups.take(i - 1)) {
        lemma_untouched_front(groups, old, new, x, i - 1);
    } else {
        lemma_moved_by_all(groups, old, new, x, i - 1);
    }
}

/// A line behind all the groups moves by what they add and remove.
proof fn lemma_moved_by_all(
    groups: Seq<Seq<DiffOp>>,
    old: Seq<Seq<char>>,
    new: Seq<Seq<char>>,
    x: int,
    i: int,
)
    requires
        0 <= i <= groups.len(),
        diff::groups_in_bounds(groups, old.len() as int, new.len() as int),
        diff::groups_ordered(groups, old.len() as int),
        diff::covered(groups.take(i)) <= x,
    ensures
        moved_by(groups.take(i), x) == added_total(groups.take(i)) - removed_total(groups.take(i)),
    decreases i,
{
    if i > 0 {
        assert(groups.take(i).drop_last() == groups.take(i - 1));
        assert(groups.take(i).last() == groups[i - 1]);
        lemma_front_step(groups, old, new, i - 1);
        law_hunk_lengths(groups[i - 1]);
        lemma_moved_by_all(groups, old, new, x, i - 1);
    }
}

/// The sides of lines go part by part.
proof fn lemma_sides_concat(a: Seq<PatchLine>, b: Seq<PatchLine>)
    ensures
        old_side(a + b) == old_side(a) + old_side(b),
        new_side(a + b) == new_side(a) + new_side(b),
        tag_count(a + b, '+') == tag_count(a, '+') + tag_count(b, '+'),
        tag_count(a + b, '-') == tag_count(a, '-') + tag_count(b, '-'),
    decreases b.len(),
{
    if b.len() == 0 {
        assert(a + b == a);
        assert(old_side(a) + old_side(b) == old_side(a));
        assert(new_side(a) + new_side(b) == new_side(a));
    } else {
        assert((a + b).drop_last() == a + b.drop_last());
        assert((a + b).last() == b.last());
        lemma_sides_concat(a, b.drop_last());
        assert(old_side(a) + old_side(b.drop_last()).push(b.last().line) == (old_side(a) + old_side(
            b.drop_last(),
        )).push(b.last().line));
        assert(new_side(a) + new_side(b.drop_last()).push(b.last().line) == (new_side(a) + new_side(
            b.drop_last(),
        )).push(b.last().line));
    }
}

/// What lines with one tag stand for.
proof fn lemma_tagged(tag: char, side: Seq<Seq<char>>, from: int, to: int)
    requires
        0 <= from <= to <= side.len(),
    ensures
        old_side(tagged(tag, side, from, to)) == if tag == '+' {
            Seq::empty()
        } else {
            side.subrange(from, to)
        },
        new_side(tagged(tag, side, from, to)) == if tag == '-' {
            Seq::empty()
        } else {
            side.subrange(from, to)
        },
        tag_count(tagged(tag, side, from, to), '+') == if tag == '+' {
            to - from
        } else {
            0
        },
        tag_count(tagged(tag, side, from, to), '-') == if tag == '-' {
            to - from
        } else {
            0
        },
    decreases to - from,
{
    let all = tagged(tag, side, from, to);
    if from < to {
        lemma_tagged(tag, side, from, to - 1);
        assert(all.drop_last() == tagged(tag, side, from, to - 1));
        assert(all.last() == tagged_line(tag, side, to - 1));
        assert(side.subrange(from, to - 1).push(side[to - 1]) == side.subrange(from, to));
    } else {
        assert(side.subrange(from, to) == Seq::<Seq<char>>::empty());
    }
}

/// What the lines of one step stand for.
proof fn lemma_step_lines(op: DiffOp, old: Seq<Seq<char>>, new: Seq<Seq<char>>)
    requires
        op.in_bounds(old.len() as int, new.len() as int),
    ensures
        old_side(step_lines(op, old, new)) == if op is Insert {
            Seq::empty()
        } else {
            old.subrange(op.old_index(), op.old_index() + op.old_len())
        },
        new_side(step_lines(op, old, new)) == diff::step_result(op, old, new),
        tag_count(step_lines(op, old, new), '+') == op.added(),
        tag_count(step_lines(op, old, new), '-') == op.removed(),
{
    match op {
        DiffOp::Equal { old_index, len, .. } => {
            lemma_tagged(' ', old, old_index as int, old_index + len);
        },
        DiffOp::Delete { old_index, old_len, .. } => {
            lemma_tagged('-', old, old_index as int, old_index + old_len);
        },
        DiffOp::Insert { new_index, new_len, .. } => {
            lemma_tagged('+', new, new_index as int, new_index + new_len);
        },
        DiffOp::Replace { old_index, old_len, new_index, new_len } => {
            let gone = tagged('-', old, old_index as int, old_index + old_len);
            let come = tagged('+', new, new_index as int, new_index + new_len);
            lemma_tagged('-', old, old_index as int, old_index + old_len);
            lemma_tagged('+', new, new_index as int, new_index + new_len);
            lemma_sides_concat(gone, come);
            assert(old_side(gone) + Seq::<Seq<char>>::empty() == old_side(gone));
            assert(Seq::<Seq<char>>::empty() + new_side(come) == new_side(come));
        },
    }
}

/// Lines that stand for a stretch of old lines, followed by those of the step
/// that takes up there, stand for the longer stretch.
proof fn lemma_step_follows(
    lines: Seq<PatchLine>,
    op: DiffOp,
    old: Seq<Seq<char>>,
    new: Seq<Seq<char>>,
    start: int,
    at: int,
)
    requires
        op.in_bounds(old.len() as int, new.len() as int),
        0 <= start <= at,
        at + op.old_len() <= old.len(),
        op is Insert || op.old_index() == at,
        old_side(lines) == old.subrange(start, at),
    ensures
        ({
            let more = lines + step_lines(op, old, new);
            &&& old_side(more) == old.subrange(start, at + op.old_len())
            &&& new_side(more) == new_side(lines) + diff::step_result(op, old, new)
            &&& tag_count(more, '+') == tag_count(lines, '+') + op.added()
            &&& tag_count(more, '-') == tag_count(lines, '-') + op.removed()
        }),
{
    lemma_step_lines(op, old, new);
    lemma_sides_concat(lines, step_lines(op, old, new));
    if op is Insert {
        assert(old.subrange(start, at) + Seq::<Seq<char>>::empty() == old.subrange(start, at));
    } else {
        assert(old.subrange(start, at) + old.subrange(at, at + op.old_len()) == old.subrange(
            start,
            at + op.old_len(),
        ));
    }
}

/// What the lines of a group stand for: on the old side the stretch of old lines
/// that it covers, on the new side its result.
proof fn lemma_group_lines(
    group: Seq<DiffOp>,
    new_at: int,
    old: Seq<Seq<char>>,
    new: Seq<Seq<char>>,
    k: int,
)
    requires
        0 <= k <= group.len(),
        forall|k: int|
            0 <= k < group.len() ==> (#[trigger] group[k]).in_bounds(
                old.len() as int,
                new.len() as int,
            ),
        0 <= diff::group_start(group),
        diff::group_end(group) <= old.len(),
        diff::steps_in_place(group, new_at, old, new),
    ensures
        ({
            let part = group.take(k);
            let lines = group_lines(part, old, new);
            &&& old_side(lines) == old.subrange(
                diff::group_start(group),
                diff::group_start(group) + diff::old_total(part),
            )
            &&& new_side(lines) == diff::group_result(part, old, new)
            &&& tag_count(lines, '+') == group_added(part)
            &&& tag_count(lines, '-') == group_removed(part)
        }),
    decreases k,
{
    let part = group.take(k);
    let start = diff::group_start(group);
    lemma_totals(group, k);
    if k > 0 {
        let before = group.take(k - 1);
        let op = group[k - 1];
        lemma_group_lines(group, new_at, old, new, k - 1);
        lemma_totals(group, k - 1);
        assert(part.drop_last() == before);
        assert(part.last() == op);
        assert(op.in_bounds(old.len() as int, new.len() as int));
        let at = start + diff::old_total(before);
        assert(diff::step_in_place(op, at, new_at + diff::new_total(before), old, new));
        lemma_step_follows(group_lines(before, old, new), op, old, new, start, at);
    } else {
        assert(part == Seq::<DiffOp>::empty());
        assert(old.subrange(start, start) == Seq::<Seq<char>>::empty());
    }
}

/// Whether the steps of a group are in place, from some line of the new side on.
spec fn placed_somewhere(
    group: Seq<DiffOp>,
    old: Seq<Seq<char>>,
    new: Seq<Seq<char>>,
) -> bool {
    exists|new_at: int| diff::steps_in_place(group, new_at, old, new)
}

/// Whether the steps of every group are in place on the old side, wherever they
/// stand on the new side.
spec fn old_in_place(
    groups: Seq<Seq<DiffOp>>,
    old: Seq<Seq<char>>,
    new: Seq<Seq<char>>,
) -> bool {
    forall|i: int|
        0 <= i < groups.len() ==> placed_somewhere(#[trigger] groups[i], old, new)
}

proof fn lemma_kept_in_place(
    groups: Seq<Seq<DiffOp>>,
    old: Seq<Seq<char>>,
    new: Seq<Seq<char>>,
    ranges: Seq<LineRange>,
)
    requires
        diff::groups_in_place(groups, old, new),
    ensures
        old_in_place(kept_groups(groups, ranges), old, new),
{
    law_kept_iff_in_scope(groups, ranges);
    let kept = kept_groups(groups, ranges);
    assert forall|i: int| 0 <= i < kept.len() implies placed_somewhere(
        #[trigger] kept[i],
        old,
        new,
    ) by {
        assert(groups.contains(kept[i]));
        let j = choose|j: int| 0 <= j < groups.len() && groups[j] == kept[i];
        assert(diff::steps_in_place(
            groups[j],
            diff::group_start(groups[j]) + diff::shift(groups.take(j)),
            old,
            new,
        ));
    }
}

/// Hunks of groups that are in place on the old side fit, and applying them is
/// splicing the groups.
proof fn lemma_hunks_apply(
    groups: Seq<Seq<DiffOp>>,
    old: Seq<Seq<char>>,
    new: Seq<Seq<char>>,
    i: int,
)
    requires
        0 <= i <= groups.len(),
        diff::groups_in_bounds(groups, old.len() as int, new.len() as int),
        diff::groups_ordered(groups, old.len() as int),
        old_in_place(groups, old, new),
    ensures
        applied(old, hunks_of(groups.take(i), old, new)) == Some(
            (diff::spliced_front(groups.take(i), old, new), diff::covered(groups.take(i))),
        ),
        hunks_of(groups.take(i), old, new).len() == i,
        hunks_tag_count(hunks_of(groups.take(i), old, new), '+') == added_total(groups.take(i)),
        hunks_tag_count(hunks_of(groups.take(i), old, new), '-') == removed_total(groups.take(i)),
    decreases i,
{
    let part = groups.take(i);
    if i > 0 {
        let before = groups.take(i - 1);
        let group = groups[i - 1];
        lemma_hunks_apply(groups, old, new, i - 1);
        lemma_front_step(groups, old, new, i - 1);
        lemma_front_count(groups, old, new, i - 1);
        assert(part.drop_last() == before);
        assert(part.last() == group);
        assert(group.len() > 0);
        assert forall|k: int| 0 <= k < group.len() implies (#[trigger] group[k]).in_bounds(
            old.len() as int,
            new.len() as int,
        ) by {
            assert(groups[i - 1][k].in_bounds(old.len() as int, new.len() as int));
        }
        assert(placed_somewhere(groups[i - 1], old, new));
        let new_at = choose|new_at: int| diff::steps_in_place(group, new_at, old, new);
        lemma_group_lines(group, new_at, old, new, group.len() as int);
        assert(group.take(group.len() as int) == group);
        lemma_group_result_len(group, old, new);
        let hunks = hunks_of(part, old, new);
        assert(hunks.drop_last() == hunks_of(before, old, new));
        let hunk = hunks.last();
        let out = diff::spliced_front(before, old, new);
        assert(hunk_fits(old, hunk, diff::covered(before), out.len() as int));
    }
}

proof fn lemma_patch_applies(
    groups: Seq<Seq<DiffOp>>,
    old: Seq<Seq<char>>,
    new: Seq<Seq<char>>,
)
    requires
        diff::groups_in_bounds(groups, old.len() as int, new.len() as int),
        diff::groups_ordered(groups, old.len() as int),
        old_in_place(groups, old, new),
    ensures
        apply_patch(old, hunks_of(groups, old, new)) == Some(diff::spliced(groups, old, new)),
        hunks_of(groups, old, new).len() == groups.len(),
        hunks_tag_count(hunks_of(groups, old, new), '+') == added_total(groups),
        hunks_tag_count(hunks_of(groups, old, new), '-') == removed_total(groups),
{
    lemma_hunks_apply(groups, old, new, groups.len() as int);
    assert(groups.take(groups.len() as int) == groups);
}

/// The patch leads to the new content, whatever the ranges: each of its hunks
/// fits where it says it stands, on both sides, and applying them to the lines
/// of the original gives the lines of the new content. It has a hunk for each
/// kept group, and as many added and removed lines as are counted.
pub proof fn law_patch_leads_to_content(
    original: Seq<char>,
    formatted: Seq<char>,
    groups: Seq<Seq<DiffOp>>,
    ranges: Seq<LineRange>,
)
    requires
        diff::describes(groups, text::pieces(original), text::pieces(formatted)),
    ensures
        ({
            let clipped = clip_of(original, formatted, groups, ranges);
            let hunks = hunks_of(
                kept_groups(groups, ranges),
                text::pieces(original),
                text::pieces(formatted),
            );
            &&& clipped.patch == patch_text(hunks)
            &&& leads_to(original, hunks, clipped.new_content)
            &&& hunks.len() == clipped.hunks_kept <= clipped.hunks_total
            &&& hunks_tag_count(hunks, '+') == clipped.added
            &&& hunks_tag_count(hunks, '-') == clipped.removed
        }),
{
    let old = text::pieces(original);
    let new = text::pieces(formatted);
    lemma_kept(groups, old, new, ranges, groups.len() as int);
    assert(groups.take(groups.len() as int) == groups);
    lemma_kept_in_place(groups, old, new, ranges);
    lemma_patch_applies(kept_groups(groups, ranges), old, new);
    law_kept_iff_in_scope(groups, ranges);
}

} // verus!
