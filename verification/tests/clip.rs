use fmtguard::clip::{build_clipped, clip_diff, emit_group};
use fmtguard::diff::{DiffOp, LineDiff};
use fmtguard::types::LineRange;

fn r(s: usize, e: usize) -> LineRange {
    LineRange::new(s, e)
}

#[test]
fn clip_keeps_overlapping_only() {
    // changes at line 2 (b->B) and line 10 (j->J); 7 lines between
    // (> 2*context) -> two separate hunks. Range [2,2] keeps only the first.
    let original = "a\nb\nc\nd\ne\nf\ng\nh\ni\nj\nk\n";
    let formatted = "a\nB\nc\nd\ne\nf\ng\nh\ni\nJ\nk\n";
    let (patch, added, removed, total, kept, new) = build_clipped(original, formatted, &[r(2, 2)]);
    assert_eq!(total, 2);
    assert_eq!(kept, 1);
    assert!(patch.contains("+B"));
    assert!(!patch.contains("+J"));
    assert_eq!(added, 1);
    assert_eq!(removed, 1);
    assert_eq!(new, "a\nB\nc\nd\ne\nf\ng\nh\ni\nj\nk\n");
}

#[test]
fn clip_whole_file_when_no_ranges() {
    let original = "a\nb\nc\n";
    let formatted = "a\nBB\nc\n";
    let (patch, added, removed, total, kept, new) = build_clipped(original, formatted, &[]);
    assert_eq!(kept, 1);
    assert_eq!(total, 1);
    assert!(patch.contains("+BB"));
    assert_eq!(added, 1);
    assert_eq!(removed, 1);
    assert_eq!(new, "a\nBB\nc\n");
}

#[test]
fn apply_roundtrip() {
    let original = "a\nb\nc\nd\ne\nf\ng\nh\ni\nj\nk\n";
    let formatted = "a\nB\nc\nd\ne\nf\ng\nh\ni\nJ\nk\n";
    let (_, _, _, _, _, new) = build_clipped(original, formatted, &[r(10, 10)]);
    // only the second hunk kept: line 10 j->J
    assert_eq!(new, "a\nb\nc\nd\ne\nf\ng\nh\ni\nJ\nk\n");
}

#[test]
fn apply_preserves_no_trailing_newline() {
    let original = "a\nb";
    let formatted = "a\nB";
    let (_, _, _, _, _, new) = build_clipped(original, formatted, &[r(2, 2)]);
    assert_eq!(new, "a\nB");
}

#[test]
fn insert_only_hunk_kept_when_position_in_range() {
    let original = "a\nb\nc\nd\ne\n";
    let formatted = "a\nb\nX\nc\nd\ne\n";
    let (patch, _, _, _, kept, _) = build_clipped(original, formatted, &[r(3, 3)]);
    assert_eq!(kept, 1);
    assert!(patch.contains("+X"));
}

#[test]
fn patch_text_is_exact() {
    let original = "a\nb\nc\nd\ne\nf\n";
    let formatted = "a\nb\nX\nc\nd\ne\nf\n";
    let (patch, added, removed, total, kept, new) = build_clipped(original, formatted, &[]);
    assert_eq!(patch, "@@ -1,5 +1,6 @@\n a\n b\n+X\n c\n d\n e\n");
    assert_eq!((added, removed, total, kept), (1, 0, 1, 1));
    assert_eq!(new, formatted);
}

#[test]
fn no_hunk_in_scope_leaves_the_file() {
    let original = "a\nb\nc\nd\ne\nf\ng\nh\ni\nj\nk\n";
    let formatted = "a\nb\nc\nd\ne\nf\ng\nh\ni\nJ\nk\n";
    let (patch, added, removed, total, kept, new) = build_clipped(original, formatted, &[r(1, 2)]);
    assert_eq!(patch, "");
    assert_eq!((added, removed, total, kept), (0, 0, 1, 0));
    assert_eq!(new, original);
}

#[test]
fn a_given_diff_is_clipped_as_it_is() {
    let diff = LineDiff {
        old_lines: vec!["a\n".to_string(), "b\n".to_string()],
        new_lines: vec!["a\n".to_string(), "c\n".to_string()],
        groups: vec![vec![
            DiffOp::Equal { old_index: 0, new_index: 0, len: 1 },
            DiffOp::Replace { old_index: 1, old_len: 1, new_index: 1, new_len: 1 },
        ]],
    };
    let (patch, added, removed, total, kept, new) = clip_diff(&diff, &[r(2, 2)]);
    assert_eq!(patch, "@@ -1,2 +1,2 @@\n a\n-b\n+c\n");
    assert_eq!((added, removed, total, kept), (1, 1, 1, 1));
    assert_eq!(new, "a\nc\n");
}

#[test]
fn a_file_without_ranges_becomes_what_the_formatter_made() {
    let original = "a\r\nb\nc\nd\ne\nf\ng\nh\ni\nj";
    let formatted = "x\nb\nc\nd\ne\nf\ng\nh\ni\nk\nl\n";
    let (_, added, removed, total, kept, new) = build_clipped(original, formatted, &[]);
    assert_eq!(new, formatted);
    assert_eq!(total, kept);
    assert_eq!((added, removed), (3, 2));
}

#[test]
fn a_carriage_return_alone_ends_no_line() {
    let original = "a\rb\nc\nd\ne\nf\ng\n";
    let formatted = "a\rb\nc\nd\ne\nf\nG\n";
    let (patch, _, _, _, _, new) = build_clipped(original, formatted, &[]);
    assert_eq!(patch, "@@ -3,4 +3,4 @@\n d\n e\n f\n-g\n+G\n");
    assert_eq!(new, formatted);
    let (patch, _, _, _, kept, new) = build_clipped(original, formatted, &[r(6, 6)]);
    assert_eq!((kept, new.as_str()), (1, formatted));
    assert_eq!(patched(original, &patch), new);
    let (_, _, _, _, kept, _) = build_clipped(original, formatted, &[r(7, 7)]);
    assert_eq!(kept, 0);
}

#[test]
fn a_line_with_a_carriage_return_is_one_line_of_the_patch() {
    let (patch, added, removed, _, _, new) = build_clipped("a\rb\nc\n", "a\rB\nc\n", &[]);
    assert_eq!(patch, "@@ -1,2 +1,2 @@\n-a\rb\n+a\rB\n c\n");
    assert_eq!((added, removed), (1, 1));
    assert_eq!(new, "a\rB\nc\n");
    let (patch, _, _, _, _, new) = build_clipped("a\nb\r", "a\nB\r", &[]);
    assert_eq!(
        patch,
        "@@ -1,2 +1,2 @@\n a\n-b\r\n\\ No newline at end of file\n\
         +B\r\n\\ No newline at end of file\n"
    );
    assert_eq!(new, "a\nB\r");
}

#[test]
fn a_line_before_the_last_gets_a_line_feed_and_no_marker() {
    let diff = LineDiff {
        old_lines: vec!["a".to_string(), "b".to_string()],
        new_lines: vec!["x".to_string(), "y\n".to_string(), "z".to_string()],
        groups: vec![],
    };
    let group = vec![DiffOp::Replace { old_index: 0, old_len: 2, new_index: 0, new_len: 3 }];
    assert_eq!(
        emit_group(&diff, &group, 0),
        "@@ -1,2 +1,3 @@\n-a\n-b\n\\ No newline at end of file\n\
         +x\n+y\n+z\n\\ No newline at end of file\n"
    );
}

#[test]
fn windows_line_ends_are_kept() {
    let original = "a\r\nb\r\nc";
    let formatted = "a\r\nB\r\nc";
    let (patch, _, _, _, _, new) = build_clipped(original, formatted, &[r(2, 2)]);
    assert_eq!(
        patch,
        "@@ -1,3 +1,3 @@\n a\r\n-b\r\n+B\r\n c\n\\ No newline at end of file\n"
    );
    assert_eq!(patched(original, &patch), new);
}

#[test]
fn a_missing_last_line_feed_is_marked() {
    let (patch, _, _, _, _, new) = build_clipped("a\nb", "a\nB", &[r(2, 2)]);
    assert_eq!(
        patch,
        "@@ -1,2 +1,2 @@\n a\n-b\n\\ No newline at end of file\n+B\n\\ No newline at end of file\n"
    );
    assert_eq!(new, "a\nB");
    let (patch, _, _, _, _, new) = build_clipped("a\nb", "a\nb\n", &[]);
    assert_eq!(patch, "@@ -1,2 +1,2 @@\n a\n-b\n\\ No newline at end of file\n+b\n");
    assert_eq!(new, "a\nb\n");
}

#[test]
fn a_side_without_lines_starts_at_the_line_before() {
    let (patch, _, _, _, _, new) = build_clipped("", "a\n", &[]);
    assert_eq!(patch, "@@ -0,0 +1,1 @@\n+a\n");
    assert_eq!(new, "a\n");
    let (patch, _, _, _, _, new) = build_clipped("\n\n", "", &[]);
    assert_eq!(patch, "@@ -1,2 +0,0 @@\n-\n-\n");
    assert_eq!(new, "");
}

#[test]
fn dropped_hunks_do_not_shift_the_kept_ones() {
    let original = "a\nb\nc\nd\ne\nf\ng\nh\ni\nj\nk\n";
    let formatted = "a\nX\nb\nc\nd\ne\nf\ng\nh\ni\nJ\nk\n";
    let (patch, _, _, total, kept, new) = build_clipped(original, formatted, &[r(10, 10)]);
    assert_eq!((total, kept), (2, 1));
    assert_eq!(patch, "@@ -7,5 +7,5 @@\n g\n h\n i\n-j\n+J\n k\n");
    assert_eq!(new, "a\nb\nc\nd\ne\nf\ng\nh\ni\nJ\nk\n");
    let (patch, _, _, _, kept, new) = build_clipped(original, formatted, &[]);
    assert_eq!(kept, 2);
    assert_eq!(
        patch,
        "@@ -1,4 +1,5 @@\n a\n+X\n b\n c\n d\n@@ -7,5 +8,5 @@\n g\n h\n i\n-j\n+J\n k\n"
    );
    assert_eq!(new, formatted);
}

#[test]
fn the_patch_leads_to_the_content() {
    let original = "a\nb\nc\nd\ne\nf\ng\nh\ni\nj\nk";
    let formatted = "a\nc\nd\ne\nf\ng\nh\ni\nJ\nK\nk\n";
    for range in 1..12 {
        let (patch, _, _, _, _, new) = build_clipped(original, formatted, &[r(range, range)]);
        assert_eq!(patched(original, &patch), new);
    }
}

/// The text that a unified diff makes of a text.
fn patched(original: &str, patch: &str) -> String {
    let old: Vec<&str> = original.split_inclusive('\n').collect();
    let mut out = String::new();
    let mut at = 0;
    let mut gone = false;
    for line in patch.split_inclusive('\n') {
        if let Some(header) = line.strip_prefix("@@ -") {
            let start: usize = header.split(',').next().unwrap().parse().unwrap();
            while at + 1 < start {
                out.push_str(old[at]);
                at += 1;
            }
        } else if line.starts_with('\\') {
            if !gone {
                out.pop();
            }
        } else if let Some(added) = line.strip_prefix('+') {
            gone = false;
            out.push_str(added);
        } else {
            gone = line.starts_with('-');
            assert_eq!(line[1..].trim_end_matches('\n'), old[at].trim_end_matches('\n'));
            if let Some(kept) = line.strip_prefix(' ') {
                out.push_str(kept);
            }
            at += 1;
        }
    }
    while at < old.len() {
        out.push_str(old[at]);
        at += 1;
    }
    out
}
