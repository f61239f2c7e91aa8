//! Reading a patch: the hunks that the text of a unified diff stands for.
//!
//! A patch is written by [`crate::clip`]. What is stated here says that the text
//! is no less than the hunks: whoever reads it as a unified diff gets them back,
//! and with them the new content.

use crate::clip;
use crate::clip::{Hunk, PatchLine};
use crate::diff;
use crate::diff::DiffOp;
use crate::text;
use crate::types::LineRange;
use vstd::prelude::*;

verus! {

/// A number in the header of a hunk.
pub open spec fn header_number(t: Seq<char>) -> Option<nat> {
    if t.len() > 0 && text::all_digits(t) {
        Some(text::digits_value(t))
    } else {
        None
    }
}

/// One side in the header of a hunk, behind its sign: where it starts and how
/// many lines it has. A count that is left out is one.
pub open spec fn header_side(t: Seq<char>, sign: char) -> Option<(nat, nat)> {
    if t.len() == 0 || t[0] != sign {
        None
    } else {
        let parts = text::split_at_char(t.skip(1), ',');
        if parts.len() == 1 {
            match header_number(parts[0]) {
                Some(start) => Some((start, 1)),
                None => None,
            }
        } else if parts.len() == 2 {
            match (header_number(parts[0]), header_number(parts[1])) {
                (Some(start), Some(count)) => Some((start, count)),
                _ => None,
            }
        } else {
            None
        }
    }
}

/// The first line of a side, counted from zero. A header counts from one, and
/// names the line before where the side has no line.
pub open spec fn first_line(start: nat, count: nat) -> int {
    if count == 0 {
        start as int
    } else {
        start - 1
    }
}

/// The hunk, still without lines, that a header opens.
pub open spec fn read_header(row: Seq<char>) -> Option<Hunk> {
    let words = text::split_at_char(row, ' ');
    if words.len() >= 4 && words[0] == "@@"@ && (words[3] == "@@"@ || words[3] == "@@\n"@) {
        match (header_side(words[1], '-'), header_side(words[2], '+')) {
            (Some((old_start, old_len)), Some((new_start, new_len))) => Some(
                Hunk {
                    old_start: first_line(old_start, old_len),
                    old_len: old_len as int,
                    new_start: first_line(new_start, new_len),
                    new_len: new_len as int,
                    lines: Seq::empty(),
                },
            ),
            _ => None,
        }
    } else {
        None
    }
}

/// A hunk with other lines.
pub open spec fn with_lines(hunk: Hunk, lines: Seq<PatchLine>) -> Hunk {
    Hunk { lines, ..hunk }
}

/// Whether this is a tag of a line: common, removed or added.
pub open spec fn is_tag(c: char) -> bool {
    c == ' ' || c == '-' || c == '+'
}

/// A line without its line feed, for which the marker came.
pub open spec fn unended(l: PatchLine) -> PatchLine {
    PatchLine { line: l.line.drop_last(), marked: true, ..l }
}

/// Reads one more row of a patch: a header opens a hunk, a tagged row is a line
/// of the last hunk, and the marker takes the line feed from the line before it.
/// `None` for any other row.
pub open spec fn read_row(hunks: Seq<Hunk>, row: Seq<char>) -> Option<Seq<Hunk>> {
    if text::starts_with(row, "@@"@) {
        match read_header(row) {
            Some(hunk) => Some(hunks.push(hunk)),
            None => None,
        }
    } else if hunks.len() == 0 || row.len() == 0 {
        None
    } else {
        let hunk = hunks.last();
        if is_tag(row[0]) {
            let l = PatchLine { tag: row[0], line: row.skip(1), marked: false };
            Some(hunks.drop_last().push(with_lines(hunk, hunk.lines.push(l))))
        } else if row[0] == '\\' && hunk.lines.len() > 0 && clip::is_ended(hunk.lines.last().line) {
            let lines = hunk.lines.drop_last().push(unended(hunk.lines.last()));
            Some(hunks.drop_last().push(with_lines(hunk, lines)))
        } else {
            None
        }
    }
}

/// Reads rows of a patch, from the first to the last, behind hunks that are
/// already read.
pub open spec fn read_rows(hunks: Option<Seq<Hunk>>, rows: Seq<Seq<char>>) -> Option<Seq<Hunk>>
    decreases rows.len(),
{
    if rows.len() == 0 {
        hunks
    } else {
        match read_rows(hunks, rows.drop_last()) {
            Some(read) => read_row(read, rows.last()),
            None => None,
        }
    }
}

/// Whether a hunk has as many lines on each side as its header says.
pub open spec fn counted(hunk: Hunk) -> bool {
    &&& clip::old_side(hunk.lines).len() == hunk.old_len
    &&& clip::new_side(hunk.lines).len() == hunk.new_len
}

/// The hunks that a patch stands for; `None` for a text that is no patch.
pub open spec fn read_patch(t: Seq<char>) -> Option<Seq<Hunk>> {
    match read_rows(Some(Seq::empty()), text::pieces(t)) {
        Some(hunks) => if forall|i: int| 0 <= i < hunks.len() ==> counted(#[trigger] hunks[i]) {
            Some(hunks)
        } else {
            None
        },
        None => None,
    }
}

/// Whether a patch, read as a unified diff and applied to a text, gives this
/// content.
pub open spec fn makes(original: Seq<char>, patch: Seq<char>, content: Seq<char>) -> bool {
    match read_patch(patch) {
        Some(hunks) => clip::leads_to(original, hunks, content),
        None => false,
    }
}

/// No line feed stands before the end of the line.
pub open spec fn one_line(line: Seq<char>) -> bool {
    forall|i: int| 0 <= i < line.len() - 1 ==> #[trigger] line[i] != '\n'
}

/// What every line of a hunk keeps: it has the marker where it has no line feed,
/// and only there.
spec fn sound(l: PatchLine) -> bool {
    &&& is_tag(l.tag)
    &&& one_line(l.line)
    &&& l.marked == !clip::is_ended(l.line)
}

spec fn all_sound(lines: Seq<PatchLine>) -> bool {
    forall|k: int| 0 <= k < lines.len() ==> sound(#[trigger] lines[k])
}

/// A text that ends with a line feed, or is empty, ends a row.
pub open spec fn ends_row(t: Seq<char>) -> bool {
    t.len() == 0 || t.last() == '\n'
}

/// The lines of two texts, the first of which ends a row, are those of both.
pub proof fn lemma_pieces_concat(a: Seq<char>, b: Seq<char>)
    requires
        ends_row(a),
    ensures
        text::pieces(a + b) == text::pieces(a) + text::pieces(b),
    decreases a.len(),
{
    let t = a + b;
    if a.len() == 0 {
        assert(t == b);
        assert(text::pieces(a) + text::pieces(b) == text::pieces(b));
    } else {
        text::lemma_first_of_bounds(a, '\n');
        let at = text::first_of(a, '\n');
        assert(at < a.len()) by {
            if at == a.len() {
                assert(a[a.len() - 1] != '\n');
            }
        }
        text::lemma_first_of(t, '\n', at);
        let rest = a.skip(at + 1);
        assert(t.take(at + 1) == a.take(at + 1));
        assert(t.skip(at + 1) == rest + b);
        assert(rest.len() > 0 ==> rest.last() == a.last());
        lemma_pieces_concat(rest, b);
        assert(text::pieces(a) == seq![a.take(at + 1)] + text::pieces(rest));
        assert(text::pieces(t) == seq![a.take(at + 1)] + text::pieces(rest + b));
        assert(seq![a.take(at + 1)] + (text::pieces(rest) + text::pieces(b)) == (seq![
            a.take(at + 1),
        ] + text::pieces(rest)) + text::pieces(b));
    }
}

/// A row is one line.
pub proof fn lemma_one_piece(row: Seq<char>)
    requires
        clip::is_ended(row),
        one_line(row),
    ensures
        text::pieces(row) == seq![row],
{
    reveal_with_fuel(text::pieces, 2);
    text::lemma_first_of(row, '\n', row.len() - 1);
    assert(row.take(row.len() as int) == row);
    assert(row.skip(row.len() as int) == Seq::<char>::empty());
    assert(seq![row] + Seq::<Seq<char>>::empty() == seq![row]);
}

proof fn lemma_rows_concat(
    hunks: Option<Seq<Hunk>>,
    a: Seq<Seq<char>>,
    b: Seq<Seq<char>>,
)
    ensures
        read_rows(hunks, a + b) == read_rows(read_rows(hunks, a), b),
    decreases b.len(),
{
    if b.len() == 0 {
        assert(a + b == a);
    } else {
        assert((a + b).drop_last() == a + b.drop_last());
        assert((a + b).last() == b.last());
        lemma_rows_concat(hunks, a, b.drop_last());
    }
}

proof fn lemma_one_row(hunks: Seq<Hunk>, row: Seq<char>)
    requires
        clip::is_ended(row),
        one_line(row),
    ensures
        read_rows(Some(hunks), text::pieces(row)) == read_row(hunks, row),
{
    lemma_one_piece(row);
    reveal_with_fuel(read_rows, 2);
    assert(seq![row].drop_last() == Seq::<Seq<char>>::empty());
    assert(seq![row].last() == row);
}

/// A tagged row is read as a line of the last hunk.
proof fn lemma_tagged_row_reads(hunks: Seq<Hunk>, hunk: Hunk, tag: char, line: Seq<char>)
    requires
        is_tag(tag),
        clip::is_ended(line),
        one_line(line),
    ensures
        read_rows(Some(hunks.push(hunk)), text::pieces(seq![tag] + line)) == Some(
            hunks.push(
                with_lines(hunk, hunk.lines.push(PatchLine { tag, line, marked: false })),
            ),
        ),
        ends_row(seq![tag] + line),
{
    let read = hunks.push(hunk);
    let row = seq![tag] + line;
    assert(read.drop_last() == hunks);
    assert(row.last() == '\n');
    assert forall|i: int| 0 <= i < row.len() - 1 implies #[trigger] row[i] != '\n' by {
        if i > 0 {
            assert(row[i] == line[i - 1]);
        }
    }
    lemma_one_row(read, row);
    assert(row.skip(1) == line);
    lemma_no_header(row);
}

/// A row that does not start with `@` is no header.
proof fn lemma_no_header(row: Seq<char>)
    requires
        row.len() > 0,
        row[0] != '@',
    ensures
        !text::starts_with(row, "@@"@),
{
    reveal_strlit("@@");
    if text::starts_with(row, "@@"@) {
        assert(row.take(2)[0] == '@');
    }
}

/// The marker takes the line feed from the line before it.
proof fn lemma_marker_reads(hunks: Seq<Hunk>, hunk: Hunk, l: PatchLine)
    requires
        clip::is_ended(l.line),
    ensures
        read_rows(
            Some(hunks.push(with_lines(hunk, hunk.lines.push(l)))),
            text::pieces("\\ No newline at end of file\n"@),
        ) == Some(hunks.push(with_lines(hunk, hunk.lines.push(unended(l))))),
        ends_row("\\ No newline at end of file\n"@),
{
    reveal_strlit("\\ No newline at end of file\n");
    let marker = "\\ No newline at end of file\n"@;
    let lines = hunk.lines.push(l);
    let read = hunks.push(with_lines(hunk, lines));
    assert(read.drop_last() == hunks);
    assert(lines.drop_last() == hunk.lines);
    lemma_one_row(read, marker);
    lemma_no_header(marker);
    assert(with_lines(with_lines(hunk, lines), hunk.lines.push(unended(l))) == with_lines(
        hunk,
        hunk.lines.push(unended(l)),
    ));
}

/// A line of a hunk is read as it was.
proof fn lemma_line_reads(hunks: Seq<Hunk>, hunk: Hunk, l: PatchLine)
    requires
        sound(l),
    ensures
        read_rows(Some(hunks.push(hunk)), text::pieces(clip::patch_line(l))) == Some(
            hunks.push(with_lines(hunk, hunk.lines.push(l))),
        ),
        ends_row(clip::patch_line(l)),
{
    if clip::is_ended(l.line) {
        lemma_tagged_row_reads(hunks, hunk, l.tag, l.line);
        assert(l == PatchLine { tag: l.tag, line: l.line, marked: false });
    } else {
        let line = l.line.push('\n');
        let row = seq![l.tag] + line;
        let marker = "\\ No newline at end of file\n"@;
        let plain = PatchLine { tag: l.tag, line, marked: false };
        assert forall|i: int| 0 <= i < line.len() - 1 implies #[trigger] line[i] != '\n' by {
            assert(l.line[i] == line[i]);
        }
        lemma_tagged_row_reads(hunks, hunk, l.tag, line);
        lemma_marker_reads(hunks, hunk, plain);
        assert(line.drop_last() == l.line);
        assert(unended(plain) == l);
        lemma_pieces_concat(row, marker);
        lemma_rows_concat(Some(hunks.push(hunk)), text::pieces(row), text::pieces(marker));
        assert(clip::patch_line(l) == row + marker) by {
            reveal_strlit("\n\\ No newline at end of file\n");
            reveal_strlit("\\ No newline at end of file\n");
            assert("\n\\ No newline at end of file\n"@ == seq!['\n'] + marker);
        }
        assert(marker.len() > 0) by {
            reveal_strlit("\\ No newline at end of file\n");
        }
    }
}

/// The lines of a hunk are read as they were.
proof fn lemma_body_reads(hunks: Seq<Hunk>, hunk: Hunk, lines: Seq<PatchLine>)
    requires
        all_sound(lines),
    ensures
        read_rows(
            Some(hunks.push(with_lines(hunk, Seq::empty()))),
            text::pieces(clip::body_text(lines)),
        ) == Some(hunks.push(with_lines(hunk, lines))),
        ends_row(clip::body_text(lines)),
    decreases lines.len(),
{
    if lines.len() == 0 {
        assert(lines == Seq::<PatchLine>::empty());
    } else {
        let before = lines.drop_last();
        let l = lines.last();
        assert forall|k: int| 0 <= k < before.len() implies sound(#[trigger] before[k]) by {
            assert(before[k] == lines[k]);
        }
        assert(lines[lines.len() - 1] == l);
        lemma_body_reads(hunks, hunk, before);
        lemma_line_reads(hunks, with_lines(hunk, before), l);
        assert(before.push(l) == lines);
        assert(with_lines(with_lines(hunk, before), before.push(l)) == with_lines(hunk, lines));
        lemma_pieces_concat(clip::body_text(before), clip::patch_line(l));
        lemma_rows_concat(
            Some(hunks.push(with_lines(hunk, Seq::empty()))),
            text::pieces(clip::body_text(before)),
            text::pieces(clip::patch_line(l)),
        );
        assert(clip::patch_line(l).len() > 0);
    }
}

proof fn lemma_split_first(a: Seq<char>, b: Seq<char>, c: char)
    requires
        forall|i: int| 0 <= i < a.len() ==> #[trigger] a[i] != c,
    ensures
        text::split_at_char(a + seq![c] + b, c) == seq![a] + text::split_at_char(b, c),
{
    let t = a + seq![c] + b;
    let at = a.len() as int;
    assert forall|j: int| 0 <= j < at implies t[j] != c by {
        assert(t[j] == a[j]);
    }
    text::lemma_first_of(t, c, at);
    assert(t.take(at) == a);
    assert(t.skip(at + 1) == b);
}

proof fn lemma_split_none(a: Seq<char>, c: char)
    requires
        forall|i: int| 0 <= i < a.len() ==> #[trigger] a[i] != c,
    ensures
        text::split_at_char(a, c) == seq![a],
{
    text::lemma_first_of(a, c, a.len() as int);
}

/// How a side is written in a header.
spec fn side_text(sign: char, start: nat, count: nat) -> Seq<char> {
    seq![sign] + (text::decimal(start) + seq![','] + text::decimal(count))
}

/// A side of a header is read as it was.
proof fn lemma_side_reads(sign: char, start: nat, count: nat)
    requires
        sign == '-' || sign == '+',
    ensures
        header_side(side_text(sign, start, count), sign) == Some((start, count)),
        forall|i: int|
            0 <= i < side_text(sign, start, count).len() ==> {
                let c = #[trigger] side_text(sign, start, count)[i];
                c != ' ' && c != '\n'
            },
{
    let a = text::decimal(start);
    let b = text::decimal(count);
    let t = side_text(sign, start, count);
    text::lemma_decimal_value(start);
    text::lemma_decimal_value(count);
    assert forall|i: int| 0 <= i < a.len() implies #[trigger] a[i] != ',' by {
        assert(text::is_digit(a[i]));
    }
    assert forall|i: int| 0 <= i < b.len() implies #[trigger] b[i] != ',' by {
        assert(text::is_digit(b[i]));
    }
    lemma_split_first(a, b, ',');
    lemma_split_none(b, ',');
    assert(t.skip(1) == a + seq![','] + b);
    let parts = text::split_at_char(t.skip(1), ',');
    assert(parts == seq![a] + seq![b]);
    assert(parts.len() == 2 && parts[0] == a && parts[1] == b);
    assert forall|i: int| 0 <= i < t.len() implies {
        let c = #[trigger] t[i];
        c != ' ' && c != '\n'
    } by {
        if 1 <= i < 1 + a.len() {
            assert(t[i] == a[i - 1]);
            assert(text::is_digit(a[i - 1]));
        } else if i > 1 + a.len() {
            assert(t[i] == b[i - 2 - a.len()]);
            assert(text::is_digit(b[i - 2 - a.len()]));
        }
    }
}

proof fn lemma_header_words(p: Seq<char>, q: Seq<char>)
    requires
        forall|i: int| 0 <= i < p.len() ==> #[trigger] p[i] != ' ' && p[i] != '\n',
        forall|i: int| 0 <= i < q.len() ==> #[trigger] q[i] != ' ' && q[i] != '\n',
    ensures
        ({
            let row = "@@"@ + seq![' '] + (p + seq![' '] + (q + seq![' '] + "@@\n"@));
            &&& text::split_at_char(row, ' ') == seq!["@@"@, p, q, "@@\n"@]
            &&& clip::is_ended(row)
            &&& one_line(row)
            &&& text::starts_with(row, "@@"@)
        }),
{
    reveal_strlit("@@");
    reveal_strlit("@@\n");
    let last = q + seq![' '] + "@@\n"@;
    let middle = p + seq![' '] + last;
    let row = "@@"@ + seq![' '] + middle;
    lemma_split_none("@@\n"@, ' ');
    lemma_split_first(q, "@@\n"@, ' ');
    lemma_split_first(p, last, ' ');
    lemma_split_first("@@"@, middle, ' ');
    assert(seq!["@@"@] + (seq![p] + (seq![q] + seq!["@@\n"@])) == seq!["@@"@, p, q, "@@\n"@]);
    assert(row.take(2) == "@@"@);
    assert forall|i: int| 0 <= i < row.len() - 1 implies #[trigger] row[i] != '\n' by {
        if 3 <= i < 3 + p.len() {
            assert(row[i] == p[i - 3]);
        } else if 4 + p.len() <= i < 4 + p.len() + q.len() {
            assert(row[i] == q[i - 4 - p.len()]);
        }
    }
}

/// The header of a hunk is read as it was.
proof fn lemma_header_reads(hunks: Seq<Hunk>, hunk: Hunk)
    requires
        hunk.old_start >= 0,
        hunk.old_len >= 0,
        hunk.new_start >= 0,
        hunk.new_len >= 0,
    ensures
        read_rows(Some(hunks), text::pieces(clip::hunk_header(hunk))) == Some(
            hunks.push(with_lines(hunk, Seq::empty())),
        ),
        ends_row(clip::hunk_header(hunk)),
{
    let old_start = clip::header_start(hunk.old_start, hunk.old_len);
    let new_start = clip::header_start(hunk.new_start, hunk.new_len);
    let old_len = hunk.old_len as nat;
    let new_len = hunk.new_len as nat;
    let p = side_text('-', old_start, old_len);
    let q = side_text('+', new_start, new_len);
    let row = "@@"@ + seq![' '] + (p + seq![' '] + (q + seq![' '] + "@@\n"@));
    lemma_side_reads('-', old_start, old_len);
    lemma_side_reads('+', new_start, new_len);
    lemma_header_words(p, q);
    lemma_header_text(old_start, old_len, new_start, new_len);
    assert(clip::hunk_header(hunk) == row);
    lemma_one_row(hunks, row);
    let words = text::split_at_char(row, ' ');
    assert(words.len() == 4 && words[0] == "@@"@ && words[1] == p && words[2] == q && words[3]
        == "@@\n"@);
    assert(read_header(row) == Some(with_lines(hunk, Seq::empty())));
}

proof fn lemma_header_text(a: nat, b: nat, c: nat, d: nat)
    ensures
        "@@ -"@ + text::decimal(a) + ","@ + text::decimal(b) + " +"@ + text::decimal(c) + ","@
            + text::decimal(d) + " @@\n"@ == "@@"@ + seq![' '] + (side_text('-', a, b) + seq![' ']
            + (side_text('+', c, d) + seq![' '] + "@@\n"@)),
{
    reveal_strlit("@@");
    reveal_strlit("@@\n");
    reveal_strlit("@@ -");
    reveal_strlit(",");
    reveal_strlit(" +");
    reveal_strlit(" @@\n");
    let p = side_text('-', a, b);
    let q = side_text('+', c, d);
    let front = "@@"@ + seq![' '] + p;
    assert("@@ -"@ == "@@"@ + seq![' '] + seq!['-']);
    assert(","@ == seq![',']);
    assert("@@ -"@ + text::decimal(a) + ","@ + text::decimal(b) == front);
    assert(" +"@ == seq![' '] + seq!['+']);
    assert(front + " +"@ + text::decimal(c) + ","@ + text::decimal(d) == front + seq![' '] + q);
    lemma_parts("@@"@ + seq![' '], p, seq![' '], q, "@@\n"@);
    assert(" @@\n"@ == seq![' '] + "@@\n"@);
    assert(front + seq![' '] + q + (seq![' '] + "@@\n"@) == front + seq![' '] + q + seq![' ']
        + "@@\n"@);
}

proof fn lemma_parts(a: Seq<char>, b: Seq<char>, gap: Seq<char>, c: Seq<char>, d: Seq<char>)
    ensures
        a + b + gap + c + gap + d == a + (b + gap + (c + gap + d)),
{
    assert(a + b + gap + c + gap + d == a + (b + gap + (c + gap + d)));
}

/// Hunks are read as they were.
proof fn lemma_hunks_read(hunks: Seq<Hunk>)
    requires
        forall|i: int|
            0 <= i < hunks.len() ==> {
                &&& (#[trigger] hunks[i]).old_start >= 0
                &&& hunks[i].old_len >= 0
                &&& hunks[i].new_start >= 0
                &&& hunks[i].new_len >= 0
                &&& all_sound(hunks[i].lines)
            },
    ensures
        read_rows(Some(Seq::empty()), text::pieces(clip::patch_text(hunks))) == Some(hunks),
        ends_row(clip::patch_text(hunks)),
    decreases hunks.len(),
{
    if hunks.len() == 0 {
        assert(hunks == Seq::<Hunk>::empty());
    } else {
        let before = hunks.drop_last();
        let hunk = hunks.last();
        assert(hunks[hunks.len() - 1] == hunk);
        lemma_hunks_read(before);
        lemma_header_reads(before, hunk);
        lemma_body_reads(before, hunk, hunk.lines);
        let header = clip::hunk_header(hunk);
        let body = clip::body_text(hunk.lines);
        lemma_pieces_concat(header, body);
        lemma_rows_concat(Some(before), text::pieces(header), text::pieces(body));
        assert(with_lines(hunk, hunk.lines) == hunk);
        assert(before.push(hunk) == hunks);
        assert(read_rows(Some(before), text::pieces(header + body)) == Some(hunks));
        lemma_pieces_concat(clip::patch_text(before), header + body);
        lemma_rows_concat(
            Some(Seq::empty()),
            text::pieces(clip::patch_text(before)),
            text::pieces(header + body),
        );
        assert(ends_row(header + body)) by {
            if body.len() == 0 {
                assert(header + body == header);
            } else {
                assert((header + body).last() == body.last());
            }
        }
        assert(clip::patch_text(hunks) == clip::patch_text(before) + (header + body));
        if (header + body).len() > 0 {
            assert(clip::patch_text(hunks).last() == (header + body).last());
        } else {
            assert(clip::patch_text(hunks) == clip::patch_text(before));
        }
    }
}

/// Hunks that fit are counted, and stand at no line before the first.
proof fn lemma_applied_counted(old: Seq<Seq<char>>, hunks: Seq<Hunk>)
    requires
        clip::applied(old, hunks) is Some,
    ensures
        match clip::applied(old, hunks) {
            Some((out, cursor)) => cursor >= 0,
            None => false,
        },
        forall|i: int|
            0 <= i < hunks.len() ==> {
                &&& counted(#[trigger] hunks[i])
                &&& hunks[i].old_start >= 0
                &&& hunks[i].new_start >= 0
            },
    decreases hunks.len(),
{
    if hunks.len() > 0 {
        let before = hunks.drop_last();
        lemma_applied_counted(old, before);
        assert forall|i: int| 0 <= i < hunks.len() implies {
            &&& counted(#[trigger] hunks[i])
            &&& hunks[i].old_start >= 0
            &&& hunks[i].new_start >= 0
        } by {
            if i < before.len() {
                assert(hunks[i] == before[i]);
            }
        }
    }
}

/// Every line is one line, and every line but the last ends with a line feed.
spec fn are_lines(side: Seq<Seq<char>>) -> bool {
    &&& forall|i: int| 0 <= i < side.len() ==> one_line(#[trigger] side[i])
    &&& forall|i: int| 0 <= i < side.len() - 1 ==> clip::is_ended(#[trigger] side[i])
}

/// The lines of a text are lines.
proof fn lemma_pieces_are_lines(t: Seq<char>)
    ensures
        are_lines(text::pieces(t)),
        t.len() > 0 ==> text::pieces(t).len() > 0,
    decreases t.len(),
{
    if t.len() > 0 {
        text::lemma_first_of_bounds(t, '\n');
        let end = text::piece_end(t);
        let rest = text::pieces(t.skip(end));
        let all = text::pieces(t);
        lemma_pieces_are_lines(t.skip(end));
        assert(all == seq![t.take(end)] + rest);
        assert forall|i: int| 0 <= i < all.len() implies one_line(#[trigger] all[i]) by {
            if i == 0 {
                assert(all[0] == t.take(end));
            } else {
                assert(all[i] == rest[i - 1]);
            }
        }
        assert forall|i: int| 0 <= i < all.len() - 1 implies clip::is_ended(#[trigger] all[i]) by {
            if i == 0 {
                assert(t.skip(end).len() > 0);
                assert(all[0] == t.take(end));
            } else {
                assert(all[i] == rest[i - 1]);
            }
        }
    }
}

proof fn lemma_tagged_sound(tag: char, side: Seq<Seq<char>>, from: int, to: int)
    requires
        is_tag(tag),
        0 <= from <= to <= side.len(),
        are_lines(side),
    ensures
        all_sound(clip::tagged(tag, side, from, to)),
{
    let lines = clip::tagged(tag, side, from, to);
    assert forall|k: int| 0 <= k < lines.len() implies sound(#[trigger] lines[k]) by {
        assert(lines[k] == clip::tagged_line(tag, side, from + k));
        assert(one_line(side[from + k]));
        if from + k < side.len() - 1 {
            assert(clip::is_ended(side[from + k]));
        }
    }
}

proof fn lemma_sound_concat(a: Seq<PatchLine>, b: Seq<PatchLine>)
    requires
        all_sound(a),
        all_sound(b),
    ensures
        all_sound(a + b),
{
    assert forall|k: int| 0 <= k < (a + b).len() implies sound(#[trigger] (a + b)[k]) by {
        if k < a.len() {
            assert((a + b)[k] == a[k]);
        } else {
            assert((a + b)[k] == b[k - a.len()]);
        }
    }
}

proof fn lemma_step_sound(op: DiffOp, old: Seq<Seq<char>>, new: Seq<Seq<char>>)
    requires
        op.in_bounds(old.len() as int, new.len() as int),
        are_lines(old),
        are_lines(new),
    ensures
        all_sound(clip::step_lines(op, old, new)),
{
    match op {
        DiffOp::Equal { old_index, len, .. } => {
            lemma_tagged_sound(' ', old, old_index as int, old_index + len);
        },
        DiffOp::Delete { old_index, old_len, .. } => {
            lemma_tagged_sound('-', old, old_index as int, old_index + old_len);
        },
        DiffOp::Insert { new_index, new_len, .. } => {
            lemma_tagged_sound('+', new, new_index as int, new_index + new_len);
        },
        DiffOp::Replace { old_index, old_len, new_index, new_len } => {
            lemma_tagged_sound('-', old, old_index as int, old_index + old_len);
            lemma_tagged_sound('+', new, new_index as int, new_index + new_len);
            lemma_sound_concat(
                clip::tagged('-', old, old_index as int, old_index + old_len),
                clip::tagged('+', new, new_index as int, new_index + new_len),
            );
        },
    }
}

/// The lines of a group are sound.
proof fn lemma_group_sound(group: Seq<DiffOp>, old: Seq<Seq<char>>, new: Seq<Seq<char>>)
    requires
        forall|k: int|
            0 <= k < group.len() ==> (#[trigger] group[k]).in_bounds(
                old.len() as int,
                new.len() as int,
            ),
        are_lines(old),
        are_lines(new),
    ensures
        all_sound(clip::group_lines(group, old, new)),
    decreases group.len(),
{
    if group.len() > 0 {
        let before = group.drop_last();
        let op = group.last();
        assert(group[group.len() - 1].in_bounds(old.len() as int, new.len() as int));
        assert forall|k: int| 0 <= k < before.len() implies (#[trigger] before[k]).in_bounds(
            old.len() as int,
            new.len() as int,
        ) by {
            assert(group[k].in_bounds(old.len() as int, new.len() as int));
        }
        lemma_group_sound(before, old, new);
        lemma_step_sound(op, old, new);
        lemma_sound_concat(
            clip::group_lines(before, old, new),
            clip::step_lines(op, old, new),
        );
    }
}

/// The lines of the hunks are sound.
proof fn lemma_hunks_sound(
    groups: Seq<Seq<DiffOp>>,
    old: Seq<Seq<char>>,
    new: Seq<Seq<char>>,
)
    requires
        diff::groups_in_bounds(groups, old.len() as int, new.len() as int),
        are_lines(old),
        are_lines(new),
    ensures
        forall|i: int|
            0 <= i < clip::hunks_of(groups, old, new).len() ==> {
                &&& all_sound((#[trigger] clip::hunks_of(groups, old, new)[i]).lines)
                &&& clip::hunks_of(groups, old, new)[i].old_len >= 0
                &&& clip::hunks_of(groups, old, new)[i].new_len >= 0
            },
    decreases groups.len(),
{
    if groups.len() > 0 {
        let before = groups.drop_last();
        let group = groups.last();
        let n = groups.len() - 1;
        assert forall|i: int, k: int|
            0 <= i < before.len() && 0 <= k < before[i].len() implies (
        #[trigger] before[i][k]).in_bounds(old.len() as int, new.len() as int) by {
            assert(groups[i][k].in_bounds(old.len() as int, new.len() as int));
        }
        assert forall|i: int| 0 <= i < before.len() implies #[trigger] before[i].len() > 0 by {
            assert(groups[i].len() > 0);
        }
        lemma_hunks_sound(before, old, new);
        assert forall|k: int| 0 <= k < group.len() implies (#[trigger] group[k]).in_bounds(
            old.len() as int,
            new.len() as int,
        ) by {
            assert(groups[n][k].in_bounds(old.len() as int, new.len() as int));
        }
        lemma_group_sound(group, old, new);
        clip::law_hunk_lengths(group);
        let a = clip::hunks_of(before, old, new);
        let hunks = clip::hunks_of(groups, old, new);
        assert(hunks.drop_last() == a);
        assert(hunks.last().lines == clip::group_lines(group, old, new));
        assert forall|i: int| 0 <= i < hunks.len() implies {
            &&& all_sound((#[trigger] hunks[i]).lines)
            &&& hunks[i].old_len >= 0
            &&& hunks[i].new_len >= 0
        } by {
            if i < a.len() {
                assert(hunks[i] == a[i]);
            }
        }
    }
}

/// The text of a patch holds its hunks, whatever the texts and the ranges: read
/// as a unified diff, it gives them back, and applied to the original it makes
/// the new content.
pub proof fn law_patch_reads_back(
    original: Seq<char>,
    formatted: Seq<char>,
    groups: Seq<Seq<DiffOp>>,
    ranges: Seq<LineRange>,
)
    requires
        diff::describes(groups, text::pieces(original), text::pieces(formatted)),
    ensures
        ({
            let clipped = clip::clip_of(original, formatted, groups, ranges);
            let hunks = clip::hunks_of(
                clip::kept_groups(groups, ranges),
                text::pieces(original),
                text::pieces(formatted),
            );
            &&& read_patch(clipped.patch) == Some(hunks)
            &&& makes(original, clipped.patch, clipped.new_content)
        }),
{
    let old = text::pieces(original);
    let new = text::pieces(formatted);
    let kept = clip::kept_groups(groups, ranges);
    let hunks = clip::hunks_of(kept, old, new);
    clip::law_patch_leads_to_content(original, formatted, groups, ranges);
    lemma_applied_counted(old, hunks);
    clip::lemma_kept_in_bounds(groups, old, new, ranges);
    lemma_pieces_are_lines(original);
    lemma_pieces_are_lines(formatted);
    lemma_hunks_sound(kept, old, new);
    lemma_hunks_read(hunks);
}

/// How many rows start with a character.
pub open spec fn rows_with(rows: Seq<Seq<char>>, c: char) -> nat
    decreases rows.len(),
{
    if rows.len() == 0 {
        0
    } else {
        rows_with(rows.drop_last(), c) + if rows.last().len() > 0 && rows.last()[0] == c {
            1nat
        } else {
            0nat
        }
    }
}

proof fn lemma_rows_with_concat(a: Seq<Seq<char>>, b: Seq<Seq<char>>, c: char)
    ensures
        rows_with(a + b, c) == rows_with(a, c) + rows_with(b, c),
    decreases b.len(),
{
    if b.len() == 0 {
        assert(a + b == a);
    } else {
        assert((a + b).drop_last() == a + b.drop_last());
        assert((a + b).last() == b.last());
        lemma_rows_with_concat(a, b.drop_last(), c);
    }
}

/// How many rows of a text start with a character.
spec fn text_rows(t: Seq<char>, c: char) -> nat {
    rows_with(text::pieces(t), c)
}

proof fn lemma_text_rows_concat(a: Seq<char>, b: Seq<char>, c: char)
    requires
        ends_row(a),
    ensures
        text_rows(a + b, c) == text_rows(a, c) + text_rows(b, c),
{
    lemma_pieces_concat(a, b);
    lemma_rows_with_concat(text::pieces(a), text::pieces(b), c);
}

proof fn lemma_one_text_row(row: Seq<char>, c: char)
    requires
        clip::is_ended(row),
        one_line(row),
    ensures
        text_rows(row, c) == if row[0] == c {
            1nat
        } else {
            0nat
        },
{
    lemma_one_piece(row);
    reveal_with_fuel(rows_with, 2);
    assert(seq![row].drop_last() == Seq::<Seq<char>>::empty());
    assert(seq![row].last() == row);
}

proof fn lemma_marker_text()
    ensures
        "\n\\ No newline at end of file\n"@ == seq!['\n'] + "\\ No newline at end of file\n"@,
{
    reveal_strlit("\n\\ No newline at end of file\n");
    reveal_strlit("\\ No newline at end of file\n");
}

proof fn lemma_marker_row(c: char)
    requires
        c != '\\',
    ensures
        text_rows("\\ No newline at end of file\n"@, c) == 0,
        ends_row("\\ No newline at end of file\n"@),
        "\\ No newline at end of file\n"@.len() > 0,
{
    reveal_strlit("\\ No newline at end of file\n");
    lemma_one_text_row("\\ No newline at end of file\n"@, c);
}

proof fn lemma_line_rows(l: PatchLine, c: char)
    requires
        sound(l),
        c != '\\',
    ensures
        text_rows(clip::patch_line(l), c) == if l.tag == c {
            1nat
        } else {
            0nat
        },
        ends_row(clip::patch_line(l)),
{
    let line = if clip::is_ended(l.line) {
        l.line
    } else {
        l.line.push('\n')
    };
    let row = seq![l.tag] + line;
    assert(row.last() == '\n');
    assert forall|i: int| 0 <= i < row.len() - 1 implies #[trigger] row[i] != '\n' by {
        if i > 0 {
            assert(row[i] == line[i - 1]);
            assert(line[i - 1] == l.line[i - 1]);
        }
    }
    lemma_one_text_row(row, c);
    if clip::is_ended(l.line) {
        assert(clip::patch_line(l) == row);
    } else {
        let marker = "\\ No newline at end of file\n"@;
        lemma_marker_text();
        assert(seq![l.tag] + l.line + (seq!['\n'] + marker) == row + marker);
        assert(clip::patch_line(l) == row + marker);
        lemma_marker_row(c);
        lemma_text_rows_concat(row, marker, c);
    }
}

proof fn lemma_body_rows(lines: Seq<PatchLine>, c: char)
    requires
        all_sound(lines),
        c != '\\',
    ensures
        text_rows(clip::body_text(lines), c) == clip::tag_count(lines, c),
        ends_row(clip::body_text(lines)),
    decreases lines.len(),
{
    if lines.len() > 0 {
        let before = lines.drop_last();
        assert forall|k: int| 0 <= k < before.len() implies sound(#[trigger] before[k]) by {
            assert(before[k] == lines[k]);
        }
        assert(sound(lines[lines.len() - 1]));
        lemma_body_rows(before, c);
        lemma_line_rows(lines.last(), c);
        lemma_text_rows_concat(clip::body_text(before), clip::patch_line(lines.last()), c);
        assert(clip::patch_line(lines.last()).len() > 0);
    }
}

proof fn lemma_header_row(hunk: Hunk, c: char)
    requires
        hunk.old_len >= 0,
        hunk.new_len >= 0,
    ensures
        text_rows(clip::hunk_header(hunk), c) == if c == '@' {
            1nat
        } else {
            0nat
        },
        ends_row(clip::hunk_header(hunk)),
        clip::hunk_header(hunk).len() > 0,
{
    let old_start = clip::header_start(hunk.old_start, hunk.old_len);
    let new_start = clip::header_start(hunk.new_start, hunk.new_len);
    let old_len = hunk.old_len as nat;
    let new_len = hunk.new_len as nat;
    let p = side_text('-', old_start, old_len);
    let q = side_text('+', new_start, new_len);
    let row = "@@"@ + seq![' '] + (p + seq![' '] + (q + seq![' '] + "@@\n"@));
    lemma_side_reads('-', old_start, old_len);
    lemma_side_reads('+', new_start, new_len);
    lemma_header_words(p, q);
    lemma_header_text(old_start, old_len, new_start, new_len);
    assert(clip::hunk_header(hunk) == row);
    lemma_one_text_row(row, c);
    reveal_strlit("@@");
    assert(row[0] == '@');
}

proof fn lemma_patch_rows(hunks: Seq<Hunk>, c: char)
    requires
        forall|i: int|
            0 <= i < hunks.len() ==> {
                &&& (#[trigger] hunks[i]).old_len >= 0
                &&& hunks[i].new_len >= 0
                &&& all_sound(hunks[i].lines)
            },
        c == '+' || c == '-' || c == '@',
    ensures
        text_rows(clip::patch_text(hunks), c) == if c == '@' {
            hunks.len() as int
        } else {
            clip::hunks_tag_count(hunks, c)
        },
        ends_row(clip::patch_text(hunks)),
    decreases hunks.len(),
{
    if hunks.len() > 0 {
        let before = hunks.drop_last();
        let hunk = hunks.last();
        assert(hunks[hunks.len() - 1] == hunk);
        lemma_patch_rows(before, c);
        lemma_header_row(hunk, c);
        lemma_body_rows(hunk.lines, c);
        if c == '@' {
            lemma_no_at(hunk.lines);
        }
        let header = clip::hunk_header(hunk);
        let body = clip::body_text(hunk.lines);
        lemma_text_rows_concat(header, body, c);
        lemma_text_rows_concat(clip::patch_text(before), header + body, c);
        assert(clip::patch_text(hunks) == clip::patch_text(before) + (header + body));
        assert((header + body).len() > 0);
        assert((header + body).last() == '\n') by {
            if body.len() == 0 {
                assert(header + body == header);
            } else {
                assert((header + body).last() == body.last());
            }
        }
    }
}

proof fn lemma_no_at(lines: Seq<PatchLine>)
    requires
        all_sound(lines),
    ensures
        clip::tag_count(lines, '@') == 0,
    decreases lines.len(),
{
    if lines.len() > 0 {
        let before = lines.drop_last();
        assert forall|k: int| 0 <= k < before.len() implies sound(#[trigger] before[k]) by {
            assert(before[k] == lines[k]);
        }
        assert(sound(lines[lines.len() - 1]));
        lemma_no_at(before);
    }
}

/// What is counted of a clipped diff can be counted in its patch: the rows that
/// start with `+` are the added lines, those that start with `-` the removed
/// ones, and those that start with `@` the hunks.
pub proof fn law_patch_rows_are_counted(
    original: Seq<char>,
    formatted: Seq<char>,
    groups: Seq<Seq<DiffOp>>,
    ranges: Seq<LineRange>,
)
    requires
        diff::describes(groups, text::pieces(original), text::pieces(formatted)),
    ensures
        ({
            let clipped = clip::clip_of(original, formatted, groups, ranges);
            let rows = text::pieces(clipped.patch);
            &&& rows_with(rows, '+') == clipped.added
            &&& rows_with(rows, '-') == clipped.removed
            &&& rows_with(rows, '@') == clipped.hunks_kept
        }),
{
    let old = text::pieces(original);
    let new = text::pieces(formatted);
    let kept = clip::kept_groups(groups, ranges);
    let hunks = clip::hunks_of(kept, old, new);
    clip::law_patch_leads_to_content(original, formatted, groups, ranges);
    clip::lemma_kept_in_bounds(groups, old, new, ranges);
    lemma_pieces_are_lines(original);
    lemma_pieces_are_lines(formatted);
    lemma_hunks_sound(kept, old, new);
    lemma_patch_rows(hunks, '+');
    lemma_patch_rows(hunks, '-');
    lemma_patch_rows(hunks, '@');
}

} // verus!
