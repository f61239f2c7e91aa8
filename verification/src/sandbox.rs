//! Verifying the patch to be applied in an isolated git worktree before the main
//! working tree is touched.
//!
//! The flow: add a detached worktree of the base, bring the caller's edited
//! files into it, write the formatted content over them, and run
//! `git diff --check` and then `cargo check --quiet` there. Only where both pass
//! is the main tree written.
//! The worktree is removed on every way out. jj is not supported: its worktrees
//! are bound to changes, so the run fails instead of falling back.

use crate::engine;
use crate::engine::{FormatResult, FormatView};
use crate::gates;
use crate::gates::{GateResult, GateView, count_changed};
use crate::text;
use crate::text::{chars_of, decimal_text, string_of, trimmed};
use crate::types::{Scope, ScopeView, Vcs};
use vstd::prelude::*;

verus! {

/// The name of the directory of the worktree of a run.
pub fn worktree_name(run_id: &str) -> (name: String)
    ensures
        name@ == "fmtguard-sandbox-"@ + run_id@,
{
    let mut name = "fmtguard-sandbox-".to_string();
    name.append(run_id);
    name
}

/// The command that adds the worktree: the program, then its arguments.
pub fn add_command(dir: &str, base: &str) -> (command: Vec<String>)
    ensures
        text::texts(command@) == seq!["git"@, "worktree"@, "add"@, "--detach"@, dir@, base@],
{
    let mut command: Vec<String> = Vec::new();
    command.push("git".to_string());
    command.push("worktree".to_string());
    command.push("add".to_string());
    command.push("--detach".to_string());
    command.push(dir.to_string());
    command.push(base.to_string());
    assert(text::texts(command@) == seq!["git"@, "worktree"@, "add"@, "--detach"@, dir@, base@]);
    command
}

/// The command that removes the worktree: the program, then its arguments.
pub fn remove_command(dir: &str) -> (command: Vec<String>)
    ensures
        text::texts(command@) == seq!["git"@, "worktree"@, "remove"@, "--force"@, dir@],
{
    let mut command: Vec<String> = Vec::new();
    command.push("git".to_string());
    command.push("worktree".to_string());
    command.push("remove".to_string());
    command.push("--force".to_string());
    command.push(dir.to_string());
    assert(text::texts(command@) == seq!["git"@, "worktree"@, "remove"@, "--force"@, dir@]);
    command
}

/// The command that checks the worktree, run in it: the program, then its
/// arguments.
pub fn check_command() -> (command: Vec<String>)
    ensures
        text::texts(command@) == seq!["git"@, "diff"@, "--check"@],
{
    let mut command: Vec<String> = Vec::new();
    command.push("git".to_string());
    command.push("diff".to_string());
    command.push("--check".to_string());
    assert(text::texts(command@) == seq!["git"@, "diff"@, "--check"@]);
    command
}

/// The command that compiles the worktree, run in it after the other: the
/// program, then its arguments.
pub fn cargo_command() -> (command: Vec<String>)
    ensures
        text::texts(command@) == seq!["cargo"@, "check"@, "--quiet"@],
{
    let mut command: Vec<String> = Vec::new();
    command.push("cargo".to_string());
    command.push("check".to_string());
    command.push("--quiet".to_string());
    assert(text::texts(command@) == seq!["cargo"@, "check"@, "--quiet"@]);
    command
}

/// The text of a failed command, without white space around it.
fn push_trimmed(out: &mut String, stderr: &str)
    ensures
        final(out)@ == old(out)@ + text::trim(stderr@),
{
    let chars = chars_of(stderr);
    let core = trimmed(chars.as_slice());
    assert(core@.subrange(0, core@.len() as int) == core@);
    out.append(string_of(core.as_slice(), 0, core.len()).as_str());
}

/// The error for a worktree that git would not add.
pub fn add_failed(dir: &str, stderr: &str) -> (message: String)
    ensures
        message@ == "git worktree add "@ + dir@ + " failed: "@ + text::trim(stderr@),
{
    let mut message = "git worktree add ".to_string();
    message.append(dir);
    message.append(" failed: ");
    push_trimmed(&mut message, stderr);
    message
}

/// A file that the worktree is to hold: the caller's own file, and then the
/// content that is written over it.
#[derive(Debug)]
pub struct SandboxFile {
    pub path: String,
    pub content: Option<String>,
}

/// The files with content, as values.
pub open spec fn sandbox_views(files: Seq<SandboxFile>) -> Seq<(Seq<char>, Option<Seq<char>>)> {
    files.map_values(|f: SandboxFile| (f.path@, text::optional_text(f.content)))
}

/// The files that the worktree is to hold: those that formatting changed.
pub open spec fn files_to_verify(results: Seq<FormatView>) -> Seq<(Seq<char>, Option<Seq<char>>)>
    decreases results.len(),
{
    if results.len() == 0 {
        Seq::empty()
    } else {
        let before = files_to_verify(results.drop_last());
        if results.last().changed {
            before.push((results.last().path, results.last().new_content))
        } else {
            before
        }
    }
}

/// The files that the worktree is to hold, in order.
pub fn sandbox_files(results: &[FormatResult]) -> (files: Vec<SandboxFile>)
    ensures
        sandbox_views(files@) == files_to_verify(engine::result_views(results@)),
{
    let ghost all = engine::result_views(results@);
    let mut files: Vec<SandboxFile> = Vec::new();
    assert(all.take(0) == Seq::<FormatView>::empty());
    assert(sandbox_views(files@) == Seq::<(Seq<char>, Option<Seq<char>>)>::empty());
    for i in 0..results.len()
        invariant
            all == engine::result_views(results@),
            sandbox_views(files@) == files_to_verify(all.take(i as int)),
    {
        let r = &results[i];
        proof {
            assert(all.take(i + 1).drop_last() == all.take(i as int));
            assert(all.take(i + 1).last() == r@);
        }
        if r.changed {
            let ghost before = sandbox_views(files@);
            let content = match &r.new_content {
                Some(content) => Some(content.clone()),
                None => None,
            };
            files.push(SandboxFile { path: r.path.clone(), content });
            assert(sandbox_views(files@) == before.push((r@.path, r@.new_content)));
        }
    }
    assert(all.take(all.len() as int) == all);
    files
}

/// What one command in the worktree gave.
#[derive(Debug)]
pub struct CheckOutput {
    pub success: bool,
    pub stderr: String,
}

/// What a [`CheckOutput`] stands for.
pub struct CheckView {
    pub success: bool,
    pub stderr: Seq<char>,
}

impl View for CheckOutput {
    type V = CheckView;

    open spec fn view(&self) -> CheckView {
        CheckView { success: self.success, stderr: self.stderr@ }
    }
}

/// What the commands in the worktree gave. The second runs where the first
/// succeeds.
#[derive(Debug)]
pub struct Checks {
    pub diff_check: CheckOutput,
    pub cargo_check: Option<CheckOutput>,
}

/// What [`Checks`] stand for.
pub struct ChecksView {
    pub diff_check: CheckView,
    pub cargo_check: Option<CheckView>,
}

impl View for Checks {
    type V = ChecksView;

    open spec fn view(&self) -> ChecksView {
        ChecksView {
            diff_check: self.diff_check@,
            cargo_check: match self.cargo_check {
                Some(output) => Some(output@),
                None => None,
            },
        }
    }
}

/// What a look at the worktree comes to, as the result of a gate: it passes
/// where both commands succeed, and fails where the second did not even run.
pub open spec fn sandbox_gate(results: Seq<FormatView>, checks: ChecksView) -> GateView {
    let compiled = match checks.cargo_check {
        Some(output) => output.success,
        None => false,
    };
    GateView {
        gate: "sandbox.verify"@,
        pass: checks.diff_check.success && compiled,
        file: None,
        metric: None,
        limit: None,
        detail: if !checks.diff_check.success {
            "sandbox verification failed: git diff --check reported problems:\n"@ + text::trim(
                checks.diff_check.stderr,
            )
        } else if !compiled {
            "sandbox verification failed: cargo check reported problems:\n"@ + text::trim(
                match checks.cargo_check {
                    Some(output) => output.stderr,
                    None => Seq::empty(),
                },
            )
        } else {
            "sandbox worktree verified: "@ + text::decimal(gates::changed_count(results))
                + " file(s) applied, git diff --check clean"@
        },
    }
}

/// The error for a scope that is not from git.
pub open spec fn not_git() -> Seq<char> {
    "--sandbox currently requires a git repository (jj worktrees are change-bound and not yet supported)"@
}

/// What the sandbox finds of a run: nothing where the scope is not from git or
/// the worktree could not be had; else a gate.
pub open spec fn sandbox_verdict(
    scope: ScopeView,
    results: Seq<FormatView>,
    checked: Result<ChecksView, Seq<char>>,
) -> Result<GateView, Seq<char>> {
    if scope.vcs != Some(Vcs::Git) {
        Err(not_git())
    } else {
        match checked {
            Err(message) => Err(message),
            Ok(checks) => Ok(sandbox_gate(results, checks)),
        }
    }
}

/// What the commands in the worktree gave, as a value.
pub open spec fn check_view(checked: Result<Checks, String>) -> Result<ChecksView, Seq<char>> {
    match checked {
        Ok(checks) => Ok(checks@),
        Err(message) => Err(message@),
    }
}

/// Whether a scope can be verified in a worktree.
pub fn supported(scope: &Scope) -> (yes: bool)
    ensures
        yes == (scope@.vcs == Some(Vcs::Git)),
{
    match scope.vcs {
        Some(Vcs::Git) => true,
        _ => false,
    }
}

/// Decides on a run from what the commands in the worktree gave; an error there
/// is one of the environment.
pub fn verify(
    scope: &Scope,
    results: &[FormatResult],
    checked: &Result<Checks, String>,
) -> (gate: Result<GateResult, String>)
    ensures
        ({
            let wanted = sandbox_verdict(
                scope@,
                engine::result_views(results@),
                check_view(*checked),
            );
            match gate {
                Ok(gate) => wanted == Ok::<GateView, Seq<char>>(gate@),
                Err(message) => wanted == Err::<GateView, Seq<char>>(message@),
            }
        }),
{
    if !supported(scope) {
        return Err(
            "--sandbox currently requires a git repository (jj worktrees are change-bound and not yet supported)".to_string(),
        );
    }
    let checks = match checked {
        Ok(checks) => checks,
        Err(message) => {
            return Err(message.clone());
        },
    };
    let compiled = match &checks.cargo_check {
        Some(output) => output.success,
        None => false,
    };
    let detail = if !checks.diff_check.success {
        let mut detail =
            "sandbox verification failed: git diff --check reported problems:\n".to_string();
        push_trimmed(&mut detail, checks.diff_check.stderr.as_str());
        detail
    } else if !compiled {
        let mut detail =
            "sandbox verification failed: cargo check reported problems:\n".to_string();
        let ghost before = detail@;
        match &checks.cargo_check {
            Some(output) => {
                push_trimmed(&mut detail, output.stderr.as_str());
            },
            None => {
                assert(text::trim(Seq::empty()) == Seq::<char>::empty());
                assert(before + Seq::<char>::empty() == before);
            },
        }
        detail
    } else {
        let mut detail = "sandbox worktree verified: ".to_string();
        detail.append(decimal_text(count_changed(results)).as_str());
        detail.append(" file(s) applied, git diff --check clean");
        detail
    };
    Ok(
        GateResult {
            gate: "sandbox.verify".to_string(),
            pass: checks.diff_check.success && compiled,
            file: None,
            metric: None,
            limit: None,
            detail,
        },
    )
}

/// The worktree passes exactly where the patch is clean and what it makes
/// compiles.
pub proof fn law_sandbox_needs_both(scope: ScopeView, results: Seq<FormatView>, checks: ChecksView)
    requires
        scope.vcs == Some(Vcs::Git),
    ensures
        ({
            let verdict = sandbox_verdict(scope, results, Ok(checks));
            &&& verdict is Ok
            &&& verdict->Ok_0.pass <==> checks.diff_check.success && (checks.cargo_check is Some
                && checks.cargo_check->0.success)
        }),
{
}

} // verus!
