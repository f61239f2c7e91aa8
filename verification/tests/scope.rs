use fmtguard::scope::{
    changed_files, command_failed, default_excludes, detect_scope, detect_vcs, diff_command,
    diff_ranges_fit, glob_match, is_excluded, list_command, parse_hunk_new_range, parse_new_ranges,
    RepoMarkers, ScopeError,
};
use fmtguard::types::{default_base, LineRange, Vcs};

#[test]
fn parse_hunk_headers() {
    assert_eq!(parse_hunk_new_range("@@ -4,0 +5 @@"), Some((5, 1)));
    assert_eq!(parse_hunk_new_range("@@ -10,3 +12,4 @@"), Some((12, 4)));
    assert_eq!(parse_hunk_new_range("@@ -1 +1 @@"), Some((1, 1)));
    assert_eq!(parse_hunk_new_range("@@ -5,1 +4,0 @@"), Some((4, 0)));
}

#[test]
fn glob_rules() {
    let pats: Vec<String> = default_excludes();
    assert!(is_excluded("generated/foo.rs", &pats));
    assert!(is_excluded("src/generated/foo.rs", &pats));
    assert!(is_excluded("vendor/lib.rs", &pats));
    assert!(!is_excluded("src/main.rs", &pats));
    assert!(!is_excluded("generatedx/foo.rs", &pats));
}

#[test]
fn parse_new_ranges_basic() {
    let diff = "\
diff --git a/f.rs b/f.rs
index a93156a..1661c07 100644
--- a/f.rs
+++ b/f.rs
@@ -4,0 +5 @@ fn b() {
+let y=2;
";
    let (ranges, added) = parse_new_ranges(diff);
    assert_eq!(ranges, vec![LineRange::new(5, 5)]);
    assert_eq!(added, 1);
}

#[test]
fn malformed_headers_are_refused() {
    assert_eq!(parse_hunk_new_range("-4,0 +5 @@"), None);
    assert_eq!(parse_hunk_new_range("@@ -4,0 +5"), None);
    assert_eq!(parse_hunk_new_range("@@ -4,0 @@"), None);
    assert_eq!(parse_hunk_new_range("@@ -4,0 5 @@"), None);
    assert_eq!(parse_hunk_new_range("@@ -4 +x @@"), None);
    assert_eq!(parse_hunk_new_range("@@ -4 +5, @@"), None);
    assert_eq!(parse_hunk_new_range("@@ -4 +99999999999999999999999 @@"), None);
}

#[test]
fn deletions_and_broken_headers_give_no_range() {
    let diff = "@@ -2,2 +1,0 @@\n-a\n-b\n@@ bad @@\n+not counted\n@@ -9 +7,3 @@\n+x\n+++y\n+z\n";
    let (ranges, added) = parse_new_ranges(diff);
    assert_eq!(ranges, vec![LineRange::new(7, 9)]);
    assert_eq!(added, 3);
}

#[test]
fn added_lines_count_whatever_they_hold() {
    let (ranges, added) = parse_new_ranges("@@ -0,0 +1 @@\n+++i;\n");
    assert_eq!((ranges, added), (vec![LineRange::new(1, 1)], 1));
    let (_, added) = parse_new_ranges("@@ -1,2 +1,3 @@\n--- a\n-- b\n+++ c\n++ d\n+e\n");
    assert_eq!(added, 3);
}

#[test]
fn file_headers_are_no_added_lines() {
    let text = "diff --git a/a.rs b/a.rs\n--- a/a.rs\n+++ b/a.rs\n@@ -1 +1 @@\n-x\n+y\n\
                diff --git a/b.rs b/b.rs\n--- a/b.rs\n+++ b/b.rs\n@@ -3,0 +4,2 @@\n+p\n+q\n\
                --- a/c.rs\n+++ b/c.rs\n@@ -1 +1 @@\n-x\n+y\n";
    let (ranges, added) = parse_new_ranges(text);
    let wanted = vec![LineRange::new(1, 1), LineRange::new(4, 5), LineRange::new(1, 1)];
    assert_eq!((ranges, added), (wanted, 4));
}

#[test]
fn ranges_that_do_not_fit_are_found() {
    assert!(diff_ranges_fit("@@ -1 +5,3 @@\n"));
    assert!(!diff_ranges_fit(&format!("@@ -1 +{},3 @@\n", usize::MAX)));
}

#[test]
fn stars_and_segments() {
    assert!(glob_match("src/*", "src/a.rs"));
    assert!(!glob_match("src/*", "src/a/b.rs"));
    assert!(glob_match("src/**", "src/a/b.rs"));
    assert!(glob_match("*.rs", "a.rs"));
    assert!(!glob_match("*.rs", "a/b.rs"));
    assert!(glob_match("**/b.rs", "x/a/b.rs"));
    assert!(!glob_match("**/b.rs", "b.rs"));
    assert!(glob_match("", ""));
    assert!(!glob_match("a", ""));
}

#[test]
fn nearest_repository_wins_and_git_before_jj() {
    let none = RepoMarkers { git: false, jj: false };
    let git = RepoMarkers { git: true, jj: false };
    let jj = RepoMarkers { git: false, jj: true };
    let both = RepoMarkers { git: true, jj: true };
    assert_eq!(detect_vcs(&[none, jj, git]), Some(Vcs::Jj));
    assert_eq!(detect_vcs(&[none, both]), Some(Vcs::Git));
    assert_eq!(detect_vcs(&[none, none]), None);
    assert_eq!(detect_vcs(&[]), None);
}

#[test]
fn commands_of_git_and_jj() {
    assert_eq!(
        list_command(Vcs::Git, "main"),
        ["git", "diff", "--name-only", "--diff-filter=ACMR", "main", "--", "*.rs"]
    );
    assert_eq!(list_command(Vcs::Jj, "main"), ["jj", "diff", "--name-only"]);
    assert_eq!(
        diff_command(Vcs::Git, "main", "a.rs"),
        ["git", "diff", "--unified=0", "main", "--", "a.rs"]
    );
    assert_eq!(diff_command(Vcs::Jj, "main", "a.rs"), ["jj", "diff", "--git", "--", "a.rs"]);
}

#[test]
fn listed_files_are_filtered() {
    let listing = " src/a.rs \n\nvendor/b.rs\nREADME.md\n";
    let excludes = default_excludes();
    assert_eq!(changed_files(Vcs::Git, listing, &excludes), ["src/a.rs", "README.md"]);
    assert_eq!(changed_files(Vcs::Jj, listing, &excludes), ["src/a.rs"]);
}

#[test]
fn scope_from_git() {
    let listing = Ok("a.rs\nvendor/x.rs\nb.rs\n".to_string());
    let diffs = [
        Ok("@@ -1 +1,2 @@\n-x\n+y\n+z\n".to_string()),
        Ok("@@ -3,2 +2,0 @@\n-x\n-y\n".to_string()),
    ];
    let scope = detect_scope(None, Some(Vcs::Git), "main", &default_excludes(), &listing, &diffs)
        .unwrap();
    assert_eq!(scope.vcs, Some(Vcs::Git));
    assert_eq!(scope.base, "main");
    assert_eq!(scope.source, "git-diff");
    assert_eq!(scope.files.len(), 2);
    assert_eq!(scope.files[0].path, "a.rs");
    assert_eq!(scope.files[0].ranges, vec![LineRange::new(1, 2)]);
    assert_eq!(scope.files[0].agent_added_lines, Some(2));
    assert_eq!(scope.files[1].path, "b.rs");
    assert!(scope.files[1].ranges.is_empty());
    assert_eq!(scope.files[1].agent_added_lines, Some(0));
}

#[test]
fn scope_from_jj_has_its_own_base() {
    let listing = Ok("a.rs\n".to_string());
    let diffs = [Ok("@@ -1 +1 @@\n-x\n+y\n".to_string())];
    let scope =
        detect_scope(Some(Vcs::Jj), Some(Vcs::Git), "main", &[], &listing, &diffs).unwrap();
    assert_eq!(scope.vcs, Some(Vcs::Jj));
    assert_eq!(scope.base, "@");
    assert_eq!(scope.source, "jj-diff");
}

#[test]
fn scope_errors() {
    let listing = Ok(String::new());
    let error = detect_scope(None, None, "HEAD", &[], &listing, &[]).unwrap_err();
    assert!(matches!(error, ScopeError::NotARepository));
    assert_eq!(
        error.message(),
        "not a git or jj repository (no .git/.jj found in cwd or parents)"
    );

    let failed = Err(command_failed("git diff", Some(128), " fatal: bad revision\n"));
    let error = detect_scope(Some(Vcs::Git), None, "x", &[], &failed, &[]).unwrap_err();
    assert_eq!(
        error.message(),
        "command `git diff` failed: exit Some(128): fatal: bad revision"
    );

    let listing = Ok("a.rs\nb.rs\n".to_string());
    let diffs = [Err(command_failed("git diff a.rs", None, ""))];
    let error = detect_scope(Some(Vcs::Git), None, "x", &[], &listing, &diffs).unwrap_err();
    assert_eq!(error.message(), "command `git diff a.rs` failed: exit None: ");
    assert_eq!(
        command_failed("x", Some(-1), "y").message(),
        "command `x` failed: exit Some(-1): y"
    );
}

#[test]
fn half_open_ranges() {
    assert_eq!(LineRange::new(3, 5).as_half_open(), (2, 5));
    assert_eq!(LineRange::new(0, 5).as_half_open(), (0, 5));
    assert_eq!(default_base(), "HEAD");
}
