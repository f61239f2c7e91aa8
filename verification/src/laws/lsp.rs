//! Laws of the talk with a language server: positions, edits and messages.

use crate::json;
use crate::json::JsonTree;
use crate::laws;
use crate::lsp;
use crate::lsp::EditView;
use crate::lsp::LspErrorKind;
use crate::lsp::LspErrorView;
use crate::text;
use crate::unified;
use vstd::prelude::*;

verus! {

/// The length of a text in UTF-16 is that of its parts together; a character
/// counts once, or twice where it lies beyond the first plane.
pub proof fn law_utf16_len(a: Seq<char>, b: Seq<char>, c: char)
    ensures
        lsp::utf16_len(a + b) == lsp::utf16_len(a) + lsp::utf16_len(b),
        c as u32 <= 0xFFFF ==> lsp::utf16_len(seq![c]) == 1,
        c as u32 > 0xFFFF ==> lsp::utf16_len(seq![c]) == 2,
        lsp::utf16_len(Seq::empty()) == 0,
    decreases b.len(),
{
    if b.len() == 0 {
        assert(a + b == a);
    } else {
        assert((a + b).drop_last() == a + b.drop_last());
        assert((a + b).last() == b.last());
        law_utf16_len(a, b.drop_last(), c);
    }
    assert(seq![c].drop_last() == Seq::<char>::empty());
    assert(seq![c].last() == c);
    assert(lsp::utf16_len(seq![c].drop_last()) == 0);
}

proof fn lemma_utf16_len_bound(t: Seq<char>)
    ensures
        lsp::utf16_len(t) >= t.len(),
    decreases t.len(),
{
    if t.len() > 0 {
        lemma_utf16_len_bound(t.drop_last());
    }
}

proof fn lemma_column_bounds(line: Seq<char>, units: int)
    ensures
        lsp::column_of(line, units) matches Ok(at) ==> 0 <= at <= line.len(),
    decreases line.len(),
{
    if units != 0 && line.len() > 0 {
        lemma_column_bounds(line.skip(1), units - lsp::utf16_width(line[0]));
    }
}

/// A column that is counted in UTF-16 stands for the character that so many units
/// come before; where no character has that many before it, there is none.
pub proof fn law_column(line: Seq<char>, units: int, n: int)
    requires
        units >= 0,
        0 <= n <= line.len(),
    ensures
        lsp::column_of(line, units) == Ok::<int, Seq<char>>(n) <==> lsp::utf16_len(line.take(n))
            == units,
    decreases line.len(),
{
    lemma_column_bounds(line, units);
    lemma_utf16_len_bound(line.take(n));
    if n == 0 {
        assert(line.take(0) == Seq::<char>::empty());
        if units > 0 && line.len() > 0 {
            lemma_column_bounds(line.skip(1), units - lsp::utf16_width(line[0]));
        }
    } else {
        let rest = line.skip(1);
        assert(line.take(n) == seq![line[0]] + rest.take(n - 1));
        law_utf16_len(seq![line[0]], rest.take(n - 1), line[0]);
        lemma_utf16_len_bound(rest.take(n - 1));
        if lsp::utf16_width(line[0]) <= units {
            law_column(rest, units - lsp::utf16_width(line[0]), n - 1);
        }
    }
}

/// How many line feeds a text has.
pub open spec fn feeds(t: Seq<char>) -> nat {
    t.filter(|c: char| c == '\n').len()
}

proof fn lemma_no_feed(t: Seq<char>)
    requires
        laws::text::lacks(t, '\n'),
    ensures
        feeds(t) == 0,
    decreases t.len(),
{
    reveal(Seq::filter);
    if t.len() > 0 {
        assert(t[t.len() - 1] != '\n');
        lemma_no_feed(t.drop_last());
    }
}

proof fn lemma_feeds(t: Seq<char>)
    requires
        unified::ends_row(t),
    ensures
        text::pieces(t).len() == feeds(t),
    decreases t.len(),
{
    if t.len() == 0 {
        lemma_no_feed(t);
    } else {
        let at = text::first_of(t, '\n');
        text::lemma_first_of_bounds(t, '\n');
        assert(at < t.len()) by {
            if at == t.len() {
                assert(t[t.len() - 1] == '\n');
            }
        }
        let row = t.take(at + 1);
        let rest = t.skip(at + 1);
        assert(t == row + rest);
        assert(row == t.take(at).push('\n'));
        assert(rest.len() > 0 ==> rest.last() == t.last());
        lemma_feeds(rest);
        let pred = |c: char| c == '\n';
        Seq::filter_distributes_over_add(row, rest, pred);
        lemma_no_feed(t.take(at));
        reveal(Seq::filter);
        assert(row.drop_last() == t.take(at));
        assert(text::pieces(t) == seq![row] + text::pieces(rest));
    }
}

proof fn lemma_line_start_front(a: Seq<Seq<char>>, b: Seq<Seq<char>>, n: int)
    requires
        0 <= n <= a.len(),
    ensures
        lsp::line_start(a + b, n) == lsp::line_start(a, n),
    decreases n,
{
    if n > 0 {
        lemma_line_start_front(a, b, n - 1);
    }
}

/// A position is a line, counted in line feeds, and a column, counted in UTF-16:
/// what lies behind so many lines and so many units is found, also right behind
/// the last line.
pub proof fn law_position(before: Seq<char>, a: Seq<char>, b: Seq<char>)
    requires
        unified::ends_row(before),
        laws::text::lacks(a, '\n'),
        before.len() + a.len() + b.len() > 0,
    ensures
        lsp::offset_of(before + (a + b), feeds(before) as int, lsp::utf16_len(a)) == Ok::<
            int,
            Seq<char>,
        >((before.len() + a.len()) as int),
{
    let x = a + b;
    let t = before + x;
    let line = feeds(before) as int;
    unified::lemma_pieces_concat(before, x);
    lemma_feeds(before);
    lsp::lemma_line_start(before, line);
    lemma_line_start_front(text::pieces(before), text::pieces(x), line);
    lemma_utf16_len_bound(a);
    if x.len() > 0 {
        let row = text::pieces(x)[0];
        text::lemma_first_of_bounds(x, '\n');
        let at = text::first_of(x, '\n');
        assert(at >= a.len()) by {
            if at < a.len() {
                assert(x[at] == a[at]);
            }
        }
        assert(row == x.take(text::piece_end(x)));
        assert(text::pieces(t)[line] == row);
        assert(row.take(a.len() as int) == a);
        law_column(row, lsp::utf16_len(a), a.len() as int);
    } else {
        assert(t == before);
        assert(a == Seq::<char>::empty());
        assert(text::lines(t).len() == text::pieces(t).len());
    }
}

/// A line that lies behind all lines of a text is refused, whatever the column.
pub proof fn law_no_position_behind_the_text(t: Seq<char>, line: int, units: int)
    requires
        line > text::lines(t).len(),
    ensures
        lsp::offset_of(t, line, units) is Err,
{
    assert(text::lines(t).len() == text::pieces(t).len());
}

/// A range of lines is that of their whole text: from the start of the first to
/// the end of the last. It is refused exactly where it names no line, or one
/// that the text does not have.
pub proof fn law_line_range(t: Seq<char>, start: int, end: int)
    requires
        0 <= start,
    ensures
        lsp::line_range_of(t, start, end) is Ok <==> 1 <= start <= end <= text::lines(t).len(),
        lsp::line_range_of(t, start, end) matches Ok(range) ==> {
            &&& start <= u32::MAX ==> range.0 == start - 1
            &&& range.1 == 0
            &&& end <= u32::MAX ==> range.2 == end - 1
            &&& lsp::utf16_len(text::lines(t)[end - 1]) <= u32::MAX ==> range.3 == lsp::utf16_len(
                text::lines(t)[end - 1],
            )
        },
{
    if 1 <= start <= end <= text::lines(t).len() {
        lemma_utf16_len_bound(text::lines(t)[end - 1]);
    }
}

/// Edits, moved towards the front of the text.
pub open spec fn moved(edits: Seq<EditView>, n: int) -> Seq<EditView> {
    edits.map_values(
        |e: EditView|
            EditView { start: e.start - n, end: e.end - n, replacement: e.replacement },
    )
}

/// Edits change a text from the front to the end: what lies before the first one
/// stays, its replacement takes the place of what it covers, and the others
/// change what lies behind it. Without edits a text stays as it is.
pub proof fn law_edits_replace_what_they_cover(
    t: Seq<char>,
    later: Seq<EditView>,
    first: EditView,
)
    requires
        0 <= first.start <= first.end <= t.len(),
        forall|i: int|
            0 <= i < later.len() ==> first.end <= (#[trigger] later[i]).start <= later[i].end
                <= t.len(),
        forall|i: int, j: int|
            0 <= i < j < later.len() ==> (#[trigger] later[j]).end <= (#[trigger] later[i]).start,
    ensures
        lsp::with_edits(t, later.push(first)) == t.take(first.start) + first.replacement
            + lsp::with_edits(t.skip(first.end), moved(later, first.end)),
        lsp::with_edits(t, Seq::empty()) == t,
    decreases later.len(),
{
    let all = later.push(first);
    let n = first.end;
    if later.len() == 0 {
        assert(all[0] == first);
        assert(all.skip(1) == Seq::<EditView>::empty());
        assert(moved(later, n) == Seq::<EditView>::empty());
        assert(lsp::with_edits(t.take(first.start), all.skip(1)) == t.take(first.start));
        assert(lsp::with_edits(t.skip(n), moved(later, n)) == t.skip(n));
    } else {
        let f = later[0];
        let rest = later.skip(1);
        let front = t.take(f.start);
        assert(all[0] == f);
        assert(all.skip(1) == rest.push(first));
        assert forall|i: int| 0 <= i < rest.len() implies n <= (#[trigger] rest[i]).start
            <= rest[i].end <= front.len() by {
            assert(rest[i] == later[i + 1]);
        }
        assert forall|i: int, j: int| 0 <= i < j < rest.len() implies (#[trigger] rest[j]).end <= (
        #[trigger] rest[i]).start by {
            assert(rest[i] == later[i + 1]);
            assert(rest[j] == later[j + 1]);
        }
        law_edits_replace_what_they_cover(front, rest, first);
        assert(front.take(first.start) == t.take(first.start));
        let shifted = moved(later, n);
        assert(shifted.skip(1) == moved(rest, n));
        assert(t.skip(n).take(f.start - n) == front.skip(n));
        assert(t.skip(n).skip(f.end - n) == t.skip(f.end));
        let a = t.take(first.start) + first.replacement;
        let b = lsp::with_edits(front.skip(n), moved(rest, n));
        assert(lsp::with_edits(t, all) == a + b + f.replacement + t.skip(f.end));
        assert(lsp::with_edits(t.skip(n), shifted) == b + f.replacement + t.skip(f.end));
        assert(a + b + f.replacement + t.skip(f.end) == a + (b + f.replacement + t.skip(f.end)));
    }
}

proof fn lemma_inserted_order(sorted: Seq<EditView>, edit: EditView, place: EditView)
    ensures
        lsp::inserted(sorted, edit).filter(|e: EditView| lsp::same_place(e, place))
            == sorted.push(edit).filter(|e: EditView| lsp::same_place(e, place)),
    decreases sorted.len(),
{
    reveal(Seq::filter);
    let pred = |e: EditView| lsp::same_place(e, place);
    assert(sorted.push(edit).drop_last() == sorted);
    if sorted.len() > 0 && !lsp::comes_first(sorted.last(), edit) {
        let before = sorted.drop_last();
        lemma_inserted_order(before, edit, place);
        let all = lsp::inserted(before, edit).push(sorted.last());
        assert(all.drop_last() == lsp::inserted(before, edit));
        assert(before.push(edit).drop_last() == before);
        assert(!(pred(sorted.last()) && pred(edit)));
        assert(sorted.filter(pred) == if pred(sorted.last()) {
            before.filter(pred).push(sorted.last())
        } else {
            before.filter(pred)
        });
        assert(before.push(edit).filter(pred) == if pred(edit) {
            before.filter(pred).push(edit)
        } else {
            before.filter(pred)
        });
        assert(all.filter(pred) == if pred(sorted.last()) {
            lsp::inserted(before, edit).filter(pred).push(sorted.last())
        } else {
            lsp::inserted(before, edit).filter(pred)
        });
    }
}

/// Edits at one place keep the order in which they were given.
pub proof fn law_edits_at_one_place_keep_their_order(edits: Seq<EditView>, place: EditView)
    ensures
        lsp::from_the_end(edits).filter(|e: EditView| lsp::same_place(e, place)) == edits.filter(
            |e: EditView| lsp::same_place(e, place),
        ),
    decreases edits.len(),
{
    reveal(Seq::filter);
    let pred = |e: EditView| lsp::same_place(e, place);
    if edits.len() > 0 {
        let before = edits.drop_last();
        law_edits_at_one_place_keep_their_order(before, place);
        let sorted = lsp::from_the_end(before);
        lemma_inserted_order(sorted, edits.last(), place);
        assert(sorted.push(edits.last()).drop_last() == sorted);
    }
}

/// Two edits do not cover the same text: one ends before the other starts.
pub open spec fn apart(a: EditView, b: EditView) -> bool {
    a.end <= b.start || b.end <= a.start
}

/// Any two of some edits are apart.
pub open spec fn all_apart(edits: Seq<EditView>) -> bool {
    forall|i: int, j: int|
        0 <= i < j < edits.len() ==> apart(#[trigger] edits[i], #[trigger] edits[j])
}

/// An edit is apart from each of some others.
spec fn apart_from(edits: Seq<EditView>, e: EditView) -> bool {
    forall|i: int| 0 <= i < edits.len() ==> apart(#[trigger] edits[i], e)
}

proof fn lemma_all_apart_push(edits: Seq<EditView>, e: EditView)
    ensures
        all_apart(edits.push(e)) <==> all_apart(edits) && apart_from(edits, e),
{
    let all = edits.push(e);
    if all_apart(all) {
        assert forall|i: int, j: int| 0 <= i < j < edits.len() implies apart(
            #[trigger] edits[i],
            #[trigger] edits[j],
        ) by {
            assert(apart(all[i], all[j]));
        }
        assert forall|i: int| 0 <= i < edits.len() implies apart(#[trigger] edits[i], e) by {
            assert(apart(all[i], all[edits.len() as int]));
        }
    }
    if all_apart(edits) && apart_from(edits, e) {
        assert forall|i: int, j: int| 0 <= i < j < all.len() implies apart(
            #[trigger] all[i],
            #[trigger] all[j],
        ) by {
            assert(all[i] == edits[i]);
            if j < edits.len() {
                assert(all[j] == edits[j]);
            }
        }
    }
}

proof fn lemma_apart_from_push(edits: Seq<EditView>, e: EditView, x: EditView)
    ensures
        apart_from(edits.push(e), x) <==> apart_from(edits, x) && apart(e, x),
{
    let all = edits.push(e);
    if apart_from(all, x) {
        assert(apart(all[edits.len() as int], x));
        assert forall|i: int| 0 <= i < edits.len() implies apart(#[trigger] edits[i], x) by {
            assert(apart(all[i], x));
        }
    }
    if apart_from(edits, x) && apart(e, x) {
        assert forall|i: int| 0 <= i < all.len() implies apart(#[trigger] all[i], x) by {
            if i < edits.len() {
                assert(all[i] == edits[i]);
            }
        }
    }
}

proof fn lemma_inserted_apart(sorted: Seq<EditView>, e: EditView, x: EditView)
    ensures
        apart_from(lsp::inserted(sorted, e), x) <==> apart_from(sorted, x) && apart(e, x),
        all_apart(lsp::inserted(sorted, e)) <==> all_apart(sorted) && apart_from(sorted, e),
    decreases sorted.len(),
{
    lemma_apart_from_push(sorted, e, x);
    lemma_all_apart_push(sorted, e);
    if sorted.len() > 0 && !lsp::comes_first(sorted.last(), e) {
        let before = sorted.drop_last();
        let last = sorted.last();
        assert(sorted == before.push(last));
        lemma_inserted_apart(before, e, x);
        lemma_inserted_apart(before, e, last);
        lemma_apart_from_push(lsp::inserted(before, e), last, x);
        lemma_all_apart_push(lsp::inserted(before, e), last);
        lemma_apart_from_push(before, last, x);
        lemma_apart_from_push(before, last, e);
        lemma_all_apart_push(before, last);
    }
}

proof fn lemma_sorted_apart(edits: Seq<EditView>, x: EditView)
    ensures
        apart_from(lsp::from_the_end(edits), x) <==> apart_from(edits, x),
        all_apart(lsp::from_the_end(edits)) <==> all_apart(edits),
    decreases edits.len(),
{
    if edits.len() > 0 {
        let before = edits.drop_last();
        assert(edits == before.push(edits.last()));
        lemma_sorted_apart(before, x);
        lemma_sorted_apart(before, edits.last());
        lemma_inserted_apart(lsp::from_the_end(before), edits.last(), x);
        lemma_apart_from_push(before, edits.last(), x);
        lemma_all_apart_push(before, edits.last());
    }
}

proof fn lemma_steps_apart(sorted: Seq<EditView>, i: int, j: int)
    requires
        0 <= i < j < sorted.len(),
        !lsp::overlapping(sorted),
        forall|k: int|
            0 <= k < sorted.len() ==> (#[trigger] sorted[k]).start <= sorted[k].end,
    ensures
        sorted[j].end <= sorted[i].start,
    decreases j - i,
{
    assert(sorted[i].start >= sorted[i + 1].end);
    if i + 1 < j {
        lemma_steps_apart(sorted, i + 1, j);
        assert(sorted[i + 1].start <= sorted[i + 1].end);
    }
}

/// Edits overlap exactly where two of them cover the same text, in whatever
/// order they are given.
pub proof fn law_edits_overlap(edits: Seq<EditView>)
    requires
        forall|i: int| 0 <= i < edits.len() ==> (#[trigger] edits[i]).start <= edits[i].end,
    ensures
        lsp::overlapping(lsp::from_the_end(edits)) <==> !all_apart(edits),
{
    let sorted = lsp::from_the_end(edits);
    lsp::law_edits_are_sorted(edits);
    lemma_sorted_len(edits);
    lemma_sorted_members(edits);
    if edits.len() > 0 {
        lemma_sorted_apart(edits, edits[0]);
    } else {
        assert(sorted.len() == 0);
    }
    if lsp::overlapping(sorted) {
        let (i, j) = choose|i: int, j: int|
            0 <= i < sorted.len() && j == i + 1 && j < sorted.len() && (#[trigger] sorted[i]).start
                < (#[trigger] sorted[j]).end;
        assert(lsp::comes_first(sorted[i], sorted[j]));
        assert(!apart(sorted[i], sorted[j]));
    } else {
        assert forall|i: int, j: int| 0 <= i < j < sorted.len() implies apart(
            #[trigger] sorted[i],
            #[trigger] sorted[j],
        ) by {
            lemma_steps_apart(sorted, i, j);
        }
    }
}

proof fn lemma_sorted_len(edits: Seq<EditView>)
    ensures
        lsp::from_the_end(edits).len() == edits.len(),
    decreases edits.len(),
{
    if edits.len() > 0 {
        lemma_sorted_len(edits.drop_last());
        lemma_inserted_len(lsp::from_the_end(edits.drop_last()), edits.last());
    }
}

proof fn lemma_inserted_len(sorted: Seq<EditView>, e: EditView)
    ensures
        lsp::inserted(sorted, e).len() == sorted.len() + 1,
    decreases sorted.len(),
{
    if sorted.len() > 0 && !lsp::comes_first(sorted.last(), e) {
        lemma_inserted_len(sorted.drop_last(), e);
    }
}

proof fn lemma_sorted_members(edits: Seq<EditView>)
    requires
        forall|i: int| 0 <= i < edits.len() ==> (#[trigger] edits[i]).start <= edits[i].end,
    ensures
        forall|i: int|
            0 <= i < edits.len() ==> (#[trigger] lsp::from_the_end(edits)[i]).start
                <= lsp::from_the_end(edits)[i].end,
{
    let sorted = lsp::from_the_end(edits);
    lemma_sorted_len(edits);
    lsp::law_edits_are_sorted(edits);
    assert forall|i: int| 0 <= i < edits.len() implies (#[trigger] sorted[i]).start
        <= sorted[i].end by {
        broadcast use vstd::seq_lib::group_to_multiset_ensures;

        assert(sorted.contains(sorted[i]));
        assert(sorted.to_multiset().count(sorted[i]) > 0);
        assert(edits.to_multiset().count(sorted[i]) > 0);
        assert(edits.contains(sorted[i]));
    }
}

/// Edits are read one by one: all of them are, each as it stands, or none.
pub proof fn law_every_edit_is_read(t: Seq<char>, edits: Seq<JsonTree>)
    ensures
        lsp::edits_of(t, edits) is Ok <==> forall|i: int|
            0 <= i < edits.len() ==> lsp::edit_of(t, #[trigger] edits[i]) is Ok,
        lsp::edits_of(t, edits) matches Ok(read) ==> read == edits.map_values(
            |e: JsonTree| lsp::edit_of(t, e)->Ok_0,
        ),
    decreases edits.len(),
{
    if edits.len() > 0 {
        let before = edits.drop_last();
        law_every_edit_is_read(t, before);
        assert(edits == before.push(edits.last()));
        if lsp::edits_of(t, edits) is Ok {
            assert forall|i: int| 0 <= i < edits.len() implies lsp::edit_of(
                t,
                #[trigger] edits[i],
            ) is Ok by {
                if i < before.len() {
                    assert(before[i] == edits[i]);
                }
            }
        } else if lsp::edits_of(t, before) is Ok {
            assert(lsp::edit_of(t, edits[edits.len() - 1]) is Err);
        } else {
            let i = choose|i: int|
                0 <= i < before.len() && !(lsp::edit_of(t, #[trigger] before[i]) is Ok);
            assert(before[i] == edits[i]);
        }
    }
}

/// An edit as a server writes it down.
pub open spec fn edit_tree(range: JsonTree, replacement: Seq<char>) -> JsonTree {
    json::object(seq![("range"@, range), ("newText"@, JsonTree::Str(replacement))])
}

proof fn lemma_position_tree(t: Seq<char>, line: u64, units: u64)
    ensures
        lsp::position_of(t, lsp::position_tree(line as int, units as int)) == lsp::offset_of(
            t,
            line as int,
            units as int,
        ),
{
    reveal_strlit("line");
    reveal_strlit("character");
    assert("line"@.len() != "character"@.len());
    let fields = seq![
        ("line"@, JsonTree::Integer(line as int)),
        ("character"@, JsonTree::Integer(units as int)),
    ];
    json::lemma_member(fields, 0);
    json::lemma_member(fields, 1);
}

/// An edit is read as it was written down: from its first position to its
/// second, with its text. It is refused exactly where a position is, or where
/// they are the wrong way round.
pub proof fn law_edit_is_read(
    t: Seq<char>,
    first_line: u64,
    first_units: u64,
    last_line: u64,
    last_units: u64,
    replacement: Seq<char>,
)
    ensures
        ({
            let range = lsp::range_tree(
                lsp::position_tree(first_line as int, first_units as int),
                lsp::position_tree(last_line as int, last_units as int),
            );
            let read = lsp::edit_of(t, edit_tree(range, replacement));
            let start = lsp::offset_of(t, first_line as int, first_units as int);
            let end = lsp::offset_of(t, last_line as int, last_units as int);
            &&& start is Ok && end is Ok && start->Ok_0 <= end->Ok_0 ==> read == Ok::<
                EditView,
                Seq<char>,
            >(EditView { start: start->Ok_0, end: end->Ok_0, replacement })
            &&& start is Ok && end is Ok && start->Ok_0 > end->Ok_0 ==> read is Err
            &&& start is Err || end is Err ==> read is Err
        }),
{
    reveal_strlit("range");
    reveal_strlit("newText");
    reveal_strlit("start");
    reveal_strlit("end");
    assert("range"@.len() != "newText"@.len());
    assert("start"@.len() != "end"@.len());
    let first = lsp::position_tree(first_line as int, first_units as int);
    let last = lsp::position_tree(last_line as int, last_units as int);
    let range = lsp::range_tree(first, last);
    lemma_position_tree(t, first_line, first_units);
    lemma_position_tree(t, last_line, last_units);
    let bounds = seq![("start"@, first), ("end"@, last)];
    json::lemma_member(bounds, 0);
    json::lemma_member(bounds, 1);
    let fields = seq![("range"@, range), ("newText"@, JsonTree::Str(replacement))];
    json::lemma_member(fields, 0);
    json::lemma_member(fields, 1);
}

/// A request carries its id, which a notification does not have; a message
/// answers the request whose id it carries and no other.
pub proof fn law_answers_carry_the_id(
    id: u64,
    other: u64,
    method: Seq<char>,
    params: JsonTree,
    message: JsonTree,
)
    ensures
        lsp::carried_id(lsp::request_message(id as int, method, params)) == Some(id),
        lsp::carried_id(lsp::shutdown_message(id as int)) == Some(id),
        lsp::carried_id(lsp::notification_message(method, params)) is None,
        !lsp::is_notification(lsp::request_message(id as int, method, params)),
        !lsp::is_notification(lsp::shutdown_message(id as int)),
        lsp::is_notification(lsp::notification_message(method, params)),
        lsp::answers(message, id) <==> json::item(message, "id"@) == JsonTree::Integer(id as int),
        lsp::answers(message, id) && lsp::answers(message, other) ==> id == other,
{
    lsp::law_requests_carry_their_id(id, method, params);
    lsp::law_notifications_have_no_id(method, params);
}

/// A response as a server writes it down: its id, and one more member.
pub open spec fn response_tree(id: int, key: Seq<char>, value: JsonTree) -> JsonTree {
    json::object(
        seq![
            ("jsonrpc"@, JsonTree::Str("2.0"@)),
            ("id"@, JsonTree::Integer(id)),
            (key, value),
        ],
    )
}

/// A response to the request, with a result, is taken, whatever the result; with
/// an error it fails with that error, and with neither it is refused. A response
/// to another request is refused, whatever it holds.
pub proof fn law_responses_are_read(id: u64, other: u64, key: Seq<char>, value: JsonTree)
    requires
        key != "jsonrpc"@,
        key != "id"@,
    ensures
        key == "result"@ ==> lsp::response_fault(response_tree(id as int, key, value), id) is None,
        key == "result"@ ==> json::item(response_tree(id as int, key, value), "result"@) == value,
        key == "error"@ ==> lsp::response_fault(response_tree(id as int, key, value), id) == Some(
            LspErrorView { kind: LspErrorKind::Other, message: json::json_text(value) },
        ),
        key != "result"@ && key != "error"@ ==> lsp::response_fault(
            response_tree(id as int, key, value),
            id,
        ) is Some,
        id != other ==> lsp::response_fault(response_tree(id as int, key, value), other) is Some,
{
    reveal_strlit("jsonrpc");
    reveal_strlit("id");
    reveal_strlit("result");
    reveal_strlit("error");
    assert("jsonrpc"@.len() == 7 && "id"@.len() == 2);
    assert("result"@.len() == 6 && "error"@.len() == 5);
    let fields = seq![
        ("jsonrpc"@, JsonTree::Str("2.0"@)),
        ("id"@, JsonTree::Integer(id as int)),
        (key, value),
    ];
    assert(fields[0].0 == "jsonrpc"@ && fields[1].0 == "id"@ && fields[2].0 == key);
    json::lemma_member(fields, 0);
    json::lemma_member(fields, 1);
    json::lemma_member(fields, 2);
    if key != "result"@ {
        assert forall|j: int| 0 <= j < fields.len() implies (#[trigger] fields[j]).0
            != "result"@ by {
            if j < 2 {
                assert(fields[j].0.len() != 6);
            }
        }
        json::lemma_no_member(fields, "result"@);
    }
    if key != "error"@ {
        assert forall|j: int| 0 <= j < fields.len() implies (#[trigger] fields[j]).0
            != "error"@ by {
            if j < 2 {
                assert(fields[j].0.len() != 5);
            }
        }
        json::lemma_no_member(fields, "error"@);
    }
}

/// A server that has exited is not waited for, also where its time is up: its
/// own success or failure counts. One that has not is waited for until then.
pub proof fn law_exit_counts(success: bool, expired: bool)
    ensures
        lsp::exit_of(Some(true), expired) == Some(Ok::<(), LspErrorView>(())),
        lsp::exit_of(Some(false), expired) == lsp::exit_of(Some(false), !expired),
        lsp::exit_of(Some(false), expired) matches Some(Err(error)) && error.kind
            == LspErrorKind::Other,
        lsp::exit_of(None, true) matches Some(Err(error)) && error.kind == LspErrorKind::TimedOut,
        lsp::exit_of(None, false) is None,
{
}

proof fn lemma_prefixed_line(
    before: Seq<Seq<char>>,
    prefix: Seq<char>,
    value: Seq<char>,
    after: Seq<Seq<char>>,
)
    requires
        forall|i: int|
            0 <= i < before.len() ==> !text::starts_with(#[trigger] before[i], prefix),
    ensures
        lsp::first_with_prefix(before + (seq![prefix + value] + after), prefix) == Some(value),
        lsp::first_with_prefix(before, prefix) is None,
    decreases before.len(),
{
    let all = before + (seq![prefix + value] + after);
    if before.len() == 0 {
        assert(all[0] == prefix + value);
        assert((prefix + value).take(prefix.len() as int) == prefix);
        assert((prefix + value).skip(prefix.len() as int) == value);
    } else {
        let more = before.skip(1);
        assert forall|i: int| 0 <= i < more.len() implies !text::starts_with(
            #[trigger] more[i],
            prefix,
        ) by {
            assert(more[i] == before[i + 1]);
        }
        assert(all[0] == before[0]);
        assert(all.skip(1) == more + (seq![prefix + value] + after));
        lemma_prefixed_line(more, prefix, value, after);
    }
}

/// The length of a message is the number behind the first header of that name,
/// whatever other headers stand around it; without one it is refused.
pub proof fn law_content_length(
    header: Seq<char>,
    before: Seq<Seq<char>>,
    value: Seq<char>,
    after: Seq<Seq<char>>,
)
    requires
        forall|i: int|
            0 <= i < before.len() ==> !text::starts_with(
                #[trigger] before[i],
                "Content-Length:"@,
            ),
    ensures
        text::lines(header) == before + (seq!["Content-Length:"@ + value] + after) ==> (
        lsp::content_length(header) is Ok <==> text::read_number(text::trim(value)) is Ok),
        text::lines(header) == before + (seq!["Content-Length:"@ + value] + after)
            && text::read_number(text::trim(value)) is Ok ==> lsp::content_length(header) == Ok::<
            nat,
            Seq<char>,
        >(text::read_number(text::trim(value))->Ok_0),
        text::lines(header) == before ==> lsp::content_length(header) is Err,
{
    lemma_prefixed_line(before, "Content-Length:"@, value, after);
}

/// A header ends at the first blank line, and nowhere before.
pub proof fn law_header_ends_at_the_blank_line(bytes: Seq<u8>, end: int)
    requires
        0 <= end,
        lsp::mark_at(bytes, end),
        forall|j: int| 0 <= j < end ==> !#[trigger] lsp::mark_at(bytes, j),
    ensures
        lsp::header_len(bytes) == Some(end),
{
    lsp::lemma_header_len(bytes, end);
}

/// However many messages have come, each is read in its turn: the first one, and
/// then those behind it. What does not hold a whole message waits.
pub proof fn law_every_message_is_read(body: Seq<u8>, tree: JsonTree, rest: Seq<u8>)
    requires
        body.len() <= usize::MAX,
        json::bytes_read_as(body, tree),
    ensures
        lsp::drained(lsp::frame(body) + rest).messages == seq![tree] + lsp::drained(rest).messages,
        lsp::drained(lsp::frame(body) + rest).error == lsp::drained(rest).error,
        lsp::drained(lsp::frame(body) + rest).rest == lsp::drained(rest).rest,
        lsp::drained(Seq::empty()).messages.len() == 0,
        lsp::drained(Seq::empty()).error is None,
{
    lsp::law_frame_round_trip(body, tree, rest);
    lsp::lemma_decoded_shrinks(lsp::frame(body) + rest);
    assert(lsp::header_len(Seq::<u8>::empty()) is None);
}

/// A message about a document holds what is sent: the document's name and text,
/// and the range to be formatted.
pub proof fn law_messages_hold_what_is_sent(
    uri: Seq<char>,
    language: Seq<char>,
    content: Seq<char>,
    range: JsonTree,
)
    ensures
        ({
            let document = json::item(
                lsp::did_open_params(uri, language, content),
                "textDocument"@,
            );
            &&& json::item(document, "uri"@) == JsonTree::Str(uri)
            &&& json::item(document, "languageId"@) == JsonTree::Str(language)
            &&& json::item(document, "text"@) == JsonTree::Str(content)
        }),
        ({
            let params = lsp::range_formatting_params(uri, range);
            &&& json::item(json::item(params, "textDocument"@), "uri"@) == JsonTree::Str(uri)
            &&& json::item(params, "range"@) == range
        }),
        json::item(lsp::initialize_params(uri), "rootUri"@) == JsonTree::Str(uri),
{
    reveal_strlit("textDocument");
    reveal_strlit("uri");
    reveal_strlit("languageId");
    reveal_strlit("version");
    reveal_strlit("text");
    reveal_strlit("range");
    reveal_strlit("options");
    reveal_strlit("rootUri");
    reveal_strlit("capabilities");
    reveal_strlit("initializationOptions");
    reveal_strlit("settings");
    assert("uri"@.len() == 3 && "languageId"@.len() == 10 && "version"@.len() == 7);
    assert("text"@.len() == 4 && "range"@.len() == 5 && "options"@.len() == 7);
    assert("textDocument"@.len() == 12 && "rootUri"@.len() == 7);
    assert("capabilities"@.len() == 12 && "initializationOptions"@.len() == 21);
    assert("settings"@.len() == 8);
    let document = seq![
        ("uri"@, JsonTree::Str(uri)),
        ("languageId"@, JsonTree::Str(language)),
        ("version"@, JsonTree::Integer(1)),
        ("text"@, JsonTree::Str(content)),
    ];
    json::lemma_member(document, 0);
    json::lemma_member(document, 1);
    json::lemma_member(document, 3);
    json::lemma_member(seq![("textDocument"@, json::object(document))], 0);
    let name = seq![("uri"@, JsonTree::Str(uri))];
    json::lemma_member(name, 0);
    let params = seq![
        ("textDocument"@, json::object(name)),
        ("range"@, range),
        (
            "options"@,
            json::object(
                seq![
                    ("tabSize"@, JsonTree::Integer(4)),
                    ("insertSpaces"@, JsonTree::Bool(true)),
                ],
            ),
        ),
    ];
    json::lemma_member(params, 0);
    json::lemma_member(params, 1);
    let start = seq![
        ("processId"@, JsonTree::Null),
        ("rootUri"@, JsonTree::Str(uri)),
        ("capabilities"@, json::object(Seq::empty())),
        ("initializationOptions"@, lsp::range_formatting_enabled()),
        ("settings"@, lsp::range_formatting_enabled()),
    ];
    json::lemma_member(start, 1);
}

} // verus!
