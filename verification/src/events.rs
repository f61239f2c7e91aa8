//! The event log. Append-only JSON lines are the single source of truth;
//! reports, statistics and audits are derived from them.

use crate::json;
use crate::json::{Json, JsonTree, Real, json_array, json_object, json_str, object_text, push_field};
use crate::text;
use crate::text::{chars_of, push_decimal};
use crate::types;
use crate::types::{LineRange, ScopedFile, ScopedFileView};
use vstd::prelude::*;

verus! {

/// A number with zeros in front, up to `width` digits.
pub open spec fn padded(n: nat, width: nat) -> Seq<char> {
    let digits = text::decimal(n);
    if digits.len() < width {
        Seq::new((width - digits.len()) as nat, |i: int| '0') + digits
    } else {
        digits
    }
}

/// The id of a run, from the time in milliseconds and a sequence number.
pub open spec fn run_id_of(now: nat, seq: nat) -> Seq<char> {
    "run-"@ + padded(now, 13) + "-"@ + text::decimal(seq)
}

/// Makes the id of a run, from the time in milliseconds since 1970 and the
/// number of runs before it in this process.
pub fn new_run_id(now_millis: u128, seq: u64) -> (id: String)
    ensures
        id@ == run_id_of(now_millis as nat, seq as nat),
{
    let mut digits = String::new();
    push_decimal(&mut digits, now_millis);
    assert(digits@ == text::decimal(now_millis as nat));
    let count: usize = chars_of(digits.as_str()).len();
    let mut id = "run-".to_string();
    if count < 13 {
        let missing: usize = 13 - count;
        for i in 0..missing
            invariant
                id@ == "run-"@ + Seq::new(i as nat, |j: int| '0'),
        {
            id.append("0");
            proof {
                reveal_strlit("0");
                assert("0"@ == seq!['0']);
                assert(Seq::new((i + 1) as nat, |j: int| '0') == Seq::new(i as nat, |j: int| '0')
                    + seq!['0']);
            }
        }
        assert(Seq::new(missing as nat, |j: int| '0') == Seq::new(
            (13 - digits@.len()) as nat,
            |j: int| '0',
        ));
    }
    id.append(digits.as_str());
    assert(id@ == "run-"@ + padded(now_millis as nat, 13));
    id.append("-");
    push_decimal(&mut id, seq as u128);
    id
}

/// One event of a run.
#[derive(Debug)]
#[allow(inconsistent_fields)]
pub enum Event {
    RunStart {
        run_id: String,
        version: String,
        cwd: String,
        base: String,
        vcs: Option<String>,
        source: String,
        rustfmt: String,
        toolchain: String,
        dry_run: bool,
    },
    ScopeDetect { source: String, files: Vec<ScopedFile>, excluded: Vec<String> },
    EngineSelect { file: String, engine: String, edition: Option<String> },
    FmtResult {
        file: String,
        changed: bool,
        idempotent: bool,
        added_lines: usize,
        removed_lines: usize,
        hunks_total: usize,
        hunks_kept: usize,
        /// The hunks that were clipped because they lie outside the scope.
        out_of_scope_hunks: usize,
        /// How long the formatter ran on the file, in both passes.
        rustfmt_duration_ms: u64,
        /// How long it ran on the text of the file.
        first_pass_duration_ms: u64,
        /// How long it ran on its own output.
        idempotency_duration_ms: u64,
        /// Clipped unified diff of this file; stored so that a replay can
        /// rebuild the patch as it was.
        patch: Option<String>,
    },
    GateCheck {
        gate: String,
        pass: bool,
        file: Option<String>,
        metric: Option<Real>,
        limit: Option<Real>,
        /// Human-readable detail; stored so that a replay rebuilds the report
        /// faithfully.
        detail: Option<String>,
    },
    ReportEmit {
        verdict: String,
        files_changed: usize,
        total_added: usize,
        total_removed: usize,
        outputs: Vec<String>,
    },
    Apply { dry_run: bool, applied_files: usize, refused: bool },
}

/// What an [`Event`] stands for.
#[allow(inconsistent_fields)]
pub enum EventView {
    RunStart {
        run_id: Seq<char>,
        version: Seq<char>,
        cwd: Seq<char>,
        base: Seq<char>,
        vcs: Option<Seq<char>>,
        source: Seq<char>,
        rustfmt: Seq<char>,
        toolchain: Seq<char>,
        dry_run: bool,
    },
    ScopeDetect { source: Seq<char>, files: Seq<ScopedFileView>, excluded: Seq<Seq<char>> },
    EngineSelect { file: Seq<char>, engine: Seq<char>, edition: Option<Seq<char>> },
    FmtResult {
        file: Seq<char>,
        changed: bool,
        idempotent: bool,
        added_lines: int,
        removed_lines: int,
        hunks_total: int,
        hunks_kept: int,
        out_of_scope_hunks: int,
        rustfmt_duration_ms: int,
        first_pass_duration_ms: int,
        idempotency_duration_ms: int,
        patch: Option<Seq<char>>,
    },
    GateCheck {
        gate: Seq<char>,
        pass: bool,
        file: Option<Seq<char>>,
        metric: Option<serde_json::Number>,
        limit: Option<serde_json::Number>,
        detail: Option<Seq<char>>,
    },
    ReportEmit {
        verdict: Seq<char>,
        files_changed: int,
        total_added: int,
        total_removed: int,
        outputs: Seq<Seq<char>>,
    },
    Apply { dry_run: bool, applied_files: int, refused: bool },
}

/// An optional number, as a value.
pub open spec fn optional_real(r: Option<Real>) -> Option<serde_json::Number> {
    match r {
        Some(r) => Some(r@),
        None => None,
    }
}

impl View for Event {
    type V = EventView;

    open spec fn view(&self) -> EventView {
        match self {
            Event::RunStart {
                run_id,
                version,
                cwd,
                base,
                vcs,
                source,
                rustfmt,
                toolchain,
                dry_run,
            } => EventView::RunStart {
                run_id: run_id@,
                version: version@,
                cwd: cwd@,
                base: base@,
                vcs: text::optional_text(*vcs),
                source: source@,
                rustfmt: rustfmt@,
                toolchain: toolchain@,
                dry_run: *dry_run,
            },
            Event::ScopeDetect { source, files, excluded } => EventView::ScopeDetect {
                source: source@,
                files: types::file_views(files@),
                excluded: text::texts(excluded@),
            },
            Event::EngineSelect { file, engine, edition } => EventView::EngineSelect {
                file: file@,
                engine: engine@,
                edition: text::optional_text(*edition),
            },
            Event::FmtResult {
                file,
                changed,
                idempotent,
                added_lines,
                removed_lines,
                hunks_total,
                hunks_kept,
                out_of_scope_hunks,
                rustfmt_duration_ms,
                first_pass_duration_ms,
                idempotency_duration_ms,
                patch,
            } => EventView::FmtResult {
                file: file@,
                changed: *changed,
                idempotent: *idempotent,
                added_lines: *added_lines as int,
                removed_lines: *removed_lines as int,
                hunks_total: *hunks_total as int,
                hunks_kept: *hunks_kept as int,
                out_of_scope_hunks: *out_of_scope_hunks as int,
                rustfmt_duration_ms: *rustfmt_duration_ms as int,
                first_pass_duration_ms: *first_pass_duration_ms as int,
                idempotency_duration_ms: *idempotency_duration_ms as int,
                patch: text::optional_text(*patch),
            },
            Event::GateCheck { gate, pass, file, metric, limit, detail } => EventView::GateCheck {
                gate: gate@,
                pass: *pass,
                file: text::optional_text(*file),
                metric: optional_real(*metric),
                limit: optional_real(*limit),
                detail: text::optional_text(*detail),
            },
            Event::ReportEmit {
                verdict,
                files_changed,
                total_added,
                total_removed,
                outputs,
            } => EventView::ReportEmit {
                verdict: verdict@,
                files_changed: *files_changed as int,
                total_added: *total_added as int,
                total_removed: *total_removed as int,
                outputs: text::texts(outputs@),
            },
            Event::Apply { dry_run, applied_files, refused } => EventView::Apply {
                dry_run: *dry_run,
                applied_files: *applied_files as int,
                refused: *refused,
            },
        }
    }
}

/// A text, or null.
pub open spec fn text_or_null(s: Option<Seq<char>>) -> JsonTree {
    match s {
        Some(s) => JsonTree::Str(s),
        None => JsonTree::Null,
    }
}

/// A number, or null.
pub open spec fn real_or_null(r: Option<serde_json::Number>) -> JsonTree {
    match r {
        Some(r) => JsonTree::Real(r),
        None => JsonTree::Null,
    }
}

/// An array of texts.
pub open spec fn text_array(s: Seq<Seq<char>>) -> JsonTree {
    JsonTree::Array(s.map_values(|t: Seq<char>| JsonTree::Str(t)))
}

/// The paths of files.
pub open spec fn paths_of(files: Seq<ScopedFileView>) -> Seq<Seq<char>> {
    files.map_values(|f: ScopedFileView| f.path)
}

/// The members of a logged line range.
pub open spec fn range_fields(range: LineRange) -> Seq<(Seq<char>, JsonTree)> {
    seq![
        ("start"@, JsonTree::Integer(range.start as int)),
        ("end"@, JsonTree::Integer(range.end as int)),
    ]
}

/// Logged line ranges.
pub open spec fn range_array(ranges: Seq<LineRange>) -> JsonTree {
    JsonTree::Array(ranges.map_values(|r: LineRange| json::object(range_fields(r))))
}

/// A count, or null.
pub open spec fn count_or_null(n: Option<usize>) -> JsonTree {
    match n {
        Some(n) => JsonTree::Integer(n as int),
        None => JsonTree::Null,
    }
}

/// The members of a logged file of a scope.
pub open spec fn file_fields(file: ScopedFileView) -> Seq<(Seq<char>, JsonTree)> {
    seq![
        ("path"@, JsonTree::Str(file.path)),
        ("ranges"@, range_array(file.ranges)),
        ("agent_added_lines"@, count_or_null(file.agent_added_lines)),
    ]
}

/// Logged files of a scope.
pub open spec fn file_array(files: Seq<ScopedFileView>) -> JsonTree {
    JsonTree::Array(files.map_values(|f: ScopedFileView| json::object(file_fields(f))))
}

/// The members, in order, of the object that an event is logged as. The first
/// tells the kind of event; a patch or a detail that is missing is left out.
pub open spec fn event_fields(e: EventView) -> Seq<(Seq<char>, JsonTree)> {
    match e {
        EventView::RunStart {
            run_id,
            version,
            cwd,
            base,
            vcs,
            source,
            rustfmt,
            toolchain,
            dry_run,
        } => seq![
            ("t"@, JsonTree::Str("run_start"@)),
            ("run_id"@, JsonTree::Str(run_id)),
            ("version"@, JsonTree::Str(version)),
            ("cwd"@, JsonTree::Str(cwd)),
            ("base"@, JsonTree::Str(base)),
            ("vcs"@, text_or_null(vcs)),
            ("source"@, JsonTree::Str(source)),
            ("rustfmt"@, JsonTree::Str(rustfmt)),
            ("toolchain"@, JsonTree::Str(toolchain)),
            ("dry_run"@, JsonTree::Bool(dry_run)),
        ],
        EventView::ScopeDetect { source, files, excluded } => seq![
            ("t"@, JsonTree::Str("scope_detect"@)),
            ("source"@, JsonTree::Str(source)),
            ("files"@, text_array(paths_of(files))),
            ("excluded"@, text_array(excluded)),
            ("file_scopes"@, file_array(files)),
        ],
        EventView::EngineSelect { file, engine, edition } => seq![
            ("t"@, JsonTree::Str("engine_select"@)),
            ("file"@, JsonTree::Str(file)),
            ("engine"@, JsonTree::Str(engine)),
            ("edition"@, text_or_null(edition)),
        ],
        EventView::FmtResult {
            file,
            changed,
            idempotent,
            added_lines,
            removed_lines,
            hunks_total,
            hunks_kept,
            out_of_scope_hunks,
            rustfmt_duration_ms,
            first_pass_duration_ms,
            idempotency_duration_ms,
            patch,
        } => {
            let fields = seq![
                ("t"@, JsonTree::Str("fmt_result"@)),
                ("file"@, JsonTree::Str(file)),
                ("changed"@, JsonTree::Bool(changed)),
                ("idempotent"@, JsonTree::Bool(idempotent)),
                ("added_lines"@, JsonTree::Integer(added_lines)),
                ("removed_lines"@, JsonTree::Integer(removed_lines)),
                ("hunks_total"@, JsonTree::Integer(hunks_total)),
                ("hunks_kept"@, JsonTree::Integer(hunks_kept)),
                ("out_of_scope_hunks"@, JsonTree::Integer(out_of_scope_hunks)),
                ("rustfmt_duration_ms"@, JsonTree::Integer(rustfmt_duration_ms)),
                ("first_pass_duration_ms"@, JsonTree::Integer(first_pass_duration_ms)),
                ("idempotency_duration_ms"@, JsonTree::Integer(idempotency_duration_ms)),
            ];
            match patch {
                Some(patch) => fields.push(("patch"@, JsonTree::Str(patch))),
                None => fields,
            }
        },
        EventView::GateCheck { gate, pass, file, metric, limit, detail } => {
            let fields = seq![
                ("t"@, JsonTree::Str("gate_check"@)),
                ("gate"@, JsonTree::Str(gate)),
                ("pass"@, JsonTree::Bool(pass)),
                ("file"@, text_or_null(file)),
                ("metric"@, real_or_null(metric)),
                ("limit"@, real_or_null(limit)),
            ];
            match detail {
                Some(detail) => fields.push(("detail"@, JsonTree::Str(detail))),
                None => fields,
            }
        },
        EventView::ReportEmit {
            verdict,
            files_changed,
            total_added,
            total_removed,
            outputs,
        } => seq![
            ("t"@, JsonTree::Str("report_emit"@)),
            ("verdict"@, JsonTree::Str(verdict)),
            ("files_changed"@, JsonTree::Integer(files_changed)),
            ("total_added"@, JsonTree::Integer(total_added)),
            ("total_removed"@, JsonTree::Integer(total_removed)),
            ("outputs"@, text_array(outputs)),
        ],
        EventView::Apply { dry_run, applied_files, refused } => seq![
            ("t"@, JsonTree::Str("apply"@)),
            ("dry_run"@, JsonTree::Bool(dry_run)),
            ("applied_files"@, JsonTree::Integer(applied_files)),
            ("refused"@, JsonTree::Bool(refused)),
        ],
    }
}

/// The object that an event is logged as.
pub open spec fn event_tree(e: EventView) -> JsonTree {
    json::object(event_fields(e))
}

fn text_json(s: &Option<String>) -> (json: Json)
    ensures
        json@ == text_or_null(text::optional_text(*s)),
{
    match s {
        Some(s) => json_str(s.as_str()),
        None => Json::Null,
    }
}

fn real_json(r: &Option<Real>) -> (json: Json)
    ensures
        json@ == real_or_null(optional_real(*r)),
{
    match r {
        Some(r) => Json::Real(r.clone()),
        None => Json::Null,
    }
}

fn texts_json(s: &Vec<String>) -> (json: Json)
    ensures
        json@ == text_array(text::texts(s@)),
{
    let ghost wanted = text_array(text::texts(s@))->Array_0;
    let mut items: Vec<Json> = Vec::new();
    for i in 0..s.len()
        invariant
            wanted == text_array(text::texts(s@))->Array_0,
            json::trees(items@) == wanted.take(i as int),
            wanted.len() == s@.len(),
    {
        let ghost before = json::trees(items@);
        items.push(json_str(s[i].as_str()));
        proof {
            assert(wanted[i as int] == JsonTree::Str(s@[i as int]@));
            assert(json::trees(items@) == before.push(wanted[i as int]));
            assert(wanted.take(i + 1) == wanted.take(i as int).push(wanted[i as int]));
        }
    }
    assert(wanted.take(wanted.len() as int) == wanted);
    json_array(items)
}

fn paths_json(files: &Vec<ScopedFile>) -> (json: Json)
    ensures
        json@ == text_array(paths_of(types::file_views(files@))),
{
    let ghost wanted = text_array(paths_of(types::file_views(files@)))->Array_0;
    let mut items: Vec<Json> = Vec::new();
    for i in 0..files.len()
        invariant
            wanted == text_array(paths_of(types::file_views(files@)))->Array_0,
            json::trees(items@) == wanted.take(i as int),
            wanted.len() == files@.len(),
    {
        let ghost before = json::trees(items@);
        items.push(json_str(files[i].path.as_str()));
        proof {
            assert(wanted[i as int] == JsonTree::Str(files@[i as int].path@));
            assert(json::trees(items@) == before.push(wanted[i as int]));
            assert(wanted.take(i + 1) == wanted.take(i as int).push(wanted[i as int]));
        }
    }
    assert(wanted.take(wanted.len() as int) == wanted);
    json_array(items)
}

fn range_json(range: &LineRange) -> (json: Json)
    ensures
        json@ == json::object(range_fields(*range)),
{
    let mut fields: Vec<(String, Json)> = Vec::new();
    push_field(&mut fields, "start", Json::UInt(range.start as u64));
    push_field(&mut fields, "end", Json::UInt(range.end as u64));
    assert(json::field_trees(fields@) == range_fields(*range));
    json_object(fields)
}

fn ranges_json(ranges: &Vec<LineRange>) -> (json: Json)
    ensures
        json@ == range_array(ranges@),
{
    let ghost wanted = range_array(ranges@)->Array_0;
    let mut items: Vec<Json> = Vec::new();
    for i in 0..ranges.len()
        invariant
            wanted == range_array(ranges@)->Array_0,
            json::trees(items@) == wanted.take(i as int),
            wanted.len() == ranges@.len(),
    {
        let ghost before = json::trees(items@);
        items.push(range_json(&ranges[i]));
        proof {
            assert(wanted[i as int] == json::object(range_fields(ranges@[i as int])));
            assert(json::trees(items@) == before.push(wanted[i as int]));
            assert(wanted.take(i + 1) == wanted.take(i as int).push(wanted[i as int]));
        }
    }
    assert(wanted.take(wanted.len() as int) == wanted);
    json_array(items)
}

fn file_json(file: &ScopedFile) -> (json: Json)
    ensures
        json@ == json::object(file_fields(file@)),
{
    let mut fields: Vec<(String, Json)> = Vec::new();
    push_field(&mut fields, "path", json_str(file.path.as_str()));
    push_field(&mut fields, "ranges", ranges_json(&file.ranges));
    let own = match file.agent_added_lines {
        Some(n) => Json::UInt(n as u64),
        None => Json::Null,
    };
    push_field(&mut fields, "agent_added_lines", own);
    assert(json::field_trees(fields@) == file_fields(file@));
    json_object(fields)
}

fn files_json(files: &Vec<ScopedFile>) -> (json: Json)
    ensures
        json@ == file_array(types::file_views(files@)),
{
    let ghost wanted = file_array(types::file_views(files@))->Array_0;
    let mut items: Vec<Json> = Vec::new();
    for i in 0..files.len()
        invariant
            wanted == file_array(types::file_views(files@))->Array_0,
            json::trees(items@) == wanted.take(i as int),
            wanted.len() == files@.len(),
    {
        let ghost before = json::trees(items@);
        items.push(file_json(&files[i]));
        proof {
            assert(wanted[i as int] == json::object(file_fields(files@[i as int]@)));
            assert(json::trees(items@) == before.push(wanted[i as int]));
            assert(wanted.take(i + 1) == wanted.take(i as int).push(wanted[i as int]));
        }
    }
    assert(wanted.take(wanted.len() as int) == wanted);
    json_array(items)
}

/// The members, in order, of the object that an event is logged as.
pub fn fields_of(event: &Event) -> (fields: Vec<(String, Json)>)
    ensures
        json::field_trees(fields@) == event_fields(event@),
{
    let mut fields: Vec<(String, Json)> = Vec::new();
    assert(json::field_trees(fields@) == Seq::<(Seq<char>, JsonTree)>::empty());
    match event {
        Event::RunStart {
            run_id,
            version,
            cwd,
            base,
            vcs,
            source,
            rustfmt,
            toolchain,
            dry_run,
        } => {
            push_field(&mut fields, "t", json_str("run_start"));
            push_field(&mut fields, "run_id", json_str(run_id.as_str()));
            push_field(&mut fields, "version", json_str(version.as_str()));
            push_field(&mut fields, "cwd", json_str(cwd.as_str()));
            push_field(&mut fields, "base", json_str(base.as_str()));
            push_field(&mut fields, "vcs", text_json(vcs));
            push_field(&mut fields, "source", json_str(source.as_str()));
            push_field(&mut fields, "rustfmt", json_str(rustfmt.as_str()));
            push_field(&mut fields, "toolchain", json_str(toolchain.as_str()));
            push_field(&mut fields, "dry_run", Json::Bool(*dry_run));
        },
        Event::ScopeDetect { source, files, excluded } => {
            push_field(&mut fields, "t", json_str("scope_detect"));
            push_field(&mut fields, "source", json_str(source.as_str()));
            push_field(&mut fields, "files", paths_json(files));
            push_field(&mut fields, "excluded", texts_json(excluded));
            push_field(&mut fields, "file_scopes", files_json(files));
        },
        Event::EngineSelect { file, engine, edition } => {
            push_field(&mut fields, "t", json_str("engine_select"));
            push_field(&mut fields, "file", json_str(file.as_str()));
            push_field(&mut fields, "engine", json_str(engine.as_str()));
            push_field(&mut fields, "edition", text_json(edition));
        },
        Event::FmtResult {
            file,
            changed,
            idempotent,
            added_lines,
            removed_lines,
            hunks_total,
            hunks_kept,
            out_of_scope_hunks,
            rustfmt_duration_ms,
            first_pass_duration_ms,
            idempotency_duration_ms,
            patch,
        } => {
            push_field(&mut fields, "t", json_str("fmt_result"));
            push_field(&mut fields, "file", json_str(file.as_str()));
            push_field(&mut fields, "changed", Json::Bool(*changed));
            push_field(&mut fields, "idempotent", Json::Bool(*idempotent));
            push_field(&mut fields, "added_lines", Json::UInt(*added_lines as u64));
            push_field(&mut fields, "removed_lines", Json::UInt(*removed_lines as u64));
            push_field(&mut fields, "hunks_total", Json::UInt(*hunks_total as u64));
            push_field(&mut fields, "hunks_kept", Json::UInt(*hunks_kept as u64));
            push_field(&mut fields, "out_of_scope_hunks", Json::UInt(*out_of_scope_hunks as u64));
            push_field(&mut fields, "rustfmt_duration_ms", Json::UInt(*rustfmt_duration_ms));
            push_field(&mut fields, "first_pass_duration_ms", Json::UInt(*first_pass_duration_ms));
            push_field(
                &mut fields,
                "idempotency_duration_ms",
                Json::UInt(*idempotency_duration_ms),
            );
            if let Some(patch) = patch {
                push_field(&mut fields, "patch", json_str(patch.as_str()));
            }
        },
        Event::GateCheck { gate, pass, file, metric, limit, detail } => {
            push_field(&mut fields, "t", json_str("gate_check"));
            push_field(&mut fields, "gate", json_str(gate.as_str()));
            push_field(&mut fields, "pass", Json::Bool(*pass));
            push_field(&mut fields, "file", text_json(file));
            push_field(&mut fields, "metric", real_json(metric));
            push_field(&mut fields, "limit", real_json(limit));
            if let Some(detail) = detail {
                push_field(&mut fields, "detail", json_str(detail.as_str()));
            }
        },
        Event::ReportEmit { verdict, files_changed, total_added, total_removed, outputs } => {
            push_field(&mut fields, "t", json_str("report_emit"));
            push_field(&mut fields, "verdict", json_str(verdict.as_str()));
            push_field(&mut fields, "files_changed", Json::UInt(*files_changed as u64));
            push_field(&mut fields, "total_added", Json::UInt(*total_added as u64));
            push_field(&mut fields, "total_removed", Json::UInt(*total_removed as u64));
            push_field(&mut fields, "outputs", texts_json(outputs));
        },
        Event::Apply { dry_run, applied_files, refused } => {
            push_field(&mut fields, "t", json_str("apply"));
            push_field(&mut fields, "dry_run", Json::Bool(*dry_run));
            push_field(&mut fields, "applied_files", Json::UInt(*applied_files as u64));
            push_field(&mut fields, "refused", Json::Bool(*refused));
        },
    }
    assert(json::field_trees(fields@) == event_fields(event@));
    fields
}

/// No two members of a logged event have one key.
pub proof fn lemma_event_keys(e: EventView)
    ensures
        json::distinct_keys(event_fields(e)),
{
    reveal_strlit("t");
    reveal_strlit("run_id");
    reveal_strlit("version");
    reveal_strlit("cwd");
    reveal_strlit("base");
    reveal_strlit("vcs");
    reveal_strlit("source");
    reveal_strlit("rustfmt");
    reveal_strlit("toolchain");
    reveal_strlit("dry_run");
    reveal_strlit("files");
    reveal_strlit("excluded");
    reveal_strlit("file");
    reveal_strlit("engine");
    reveal_strlit("edition");
    reveal_strlit("changed");
    reveal_strlit("idempotent");
    reveal_strlit("added_lines");
    reveal_strlit("removed_lines");
    reveal_strlit("hunks_total");
    reveal_strlit("hunks_kept");
    reveal_strlit("out_of_scope_hunks");
    reveal_strlit("rustfmt_duration_ms");
    reveal_strlit("first_pass_duration_ms");
    reveal_strlit("idempotency_duration_ms");
    reveal_strlit("file_scopes");
    reveal_strlit("patch");
    reveal_strlit("gate");
    reveal_strlit("pass");
    reveal_strlit("metric");
    reveal_strlit("limit");
    reveal_strlit("detail");
    reveal_strlit("verdict");
    reveal_strlit("files_changed");
    reveal_strlit("total_added");
    reveal_strlit("total_removed");
    reveal_strlit("outputs");
    reveal_strlit("applied_files");
    reveal_strlit("refused");
    let fields = event_fields(e);
    assert forall|i: int, j: int| 0 <= i < j < fields.len() implies (#[trigger] fields[i]).0 != (
    #[trigger] fields[j]).0 by {
        let a = fields[i].0;
        let b = fields[j].0;
        assert(a.len() != b.len() || a[0] != b[0]);
    }
}

/// An object nests one container more than its members do.
proof fn lemma_object_shallow(fields: Seq<(Seq<char>, JsonTree)>, levels: nat)
    requires
        forall|i: int| 0 <= i < fields.len() ==> json::shallow((#[trigger] fields[i]).1, levels),
    ensures
        json::shallow(json::object(fields), levels + 1),
{
    let all = json::members(fields);
    assert forall|key: Seq<char>| #[trigger] all.contains_key(key) implies json::shallow(
        all[key],
        levels,
    ) by {
        let i = json::lemma_members_value(fields, key);
        assert(json::shallow(fields[i].1, levels));
    }
}

/// The files of a logged scope nest four containers.
proof fn lemma_files_shallow(files: Seq<ScopedFileView>)
    ensures
        json::shallow(file_array(files), (json::MAX_DEPTH - 1) as nat),
{
    let items = file_array(files)->Array_0;
    assert forall|i: int| 0 <= i < items.len() implies json::shallow(
        #[trigger] items[i],
        (json::MAX_DEPTH - 2) as nat,
    ) by {
        let fields = file_fields(files[i]);
        let ranges = range_array(files[i].ranges)->Array_0;
        assert forall|j: int| 0 <= j < ranges.len() implies json::shallow(
            #[trigger] ranges[j],
            (json::MAX_DEPTH - 4) as nat,
        ) by {
            lemma_object_shallow(
                range_fields(files[i].ranges[j]),
                (json::MAX_DEPTH - 5) as nat,
            );
        }
        assert(json::shallow(fields[1].1, (json::MAX_DEPTH - 3) as nat));
        lemma_object_shallow(fields, (json::MAX_DEPTH - 3) as nat);
    }
}

/// Texts of a logged list nest one container.
proof fn lemma_texts_shallow(s: Seq<Seq<char>>)
    ensures
        json::shallow(text_array(s), (json::MAX_DEPTH - 1) as nat),
{
    let items = text_array(s)->Array_0;
    assert forall|i: int| 0 <= i < items.len() implies json::shallow(
        #[trigger] items[i],
        (json::MAX_DEPTH - 2) as nat,
    ) by {
        assert(items[i] is Str);
    }
}

/// A logged event nests no deeper than the reader goes.
proof fn lemma_event_shallow(e: EventView)
    ensures
        json::shallow(event_tree(e), json::MAX_DEPTH as nat),
{
    let fields = event_fields(e);
    match e {
        EventView::ScopeDetect { files, excluded, .. } => {
            lemma_texts_shallow(paths_of(files));
            lemma_texts_shallow(excluded);
            lemma_files_shallow(files);
        },
        EventView::ReportEmit { outputs, .. } => {
            lemma_texts_shallow(outputs);
        },
        _ => {},
    }
    assert forall|i: int| 0 <= i < fields.len() implies json::shallow(
        (#[trigger] fields[i]).1,
        (json::MAX_DEPTH - 1) as nat,
    ) by {}
    lemma_object_shallow(fields, (json::MAX_DEPTH - 1) as nat);
}

/// What an event holds in the log under the key of its `i`-th member.
pub proof fn lemma_event_member(e: EventView, i: int)
    requires
        0 <= i < event_fields(e).len(),
    ensures
        json::item(event_tree(e), event_fields(e)[i].0) == event_fields(e)[i].1,
{
    lemma_event_keys(e);
    json::lemma_member(event_fields(e), i);
}

/// The line of the log for an event, without its line feed: one line of JSON
/// that reads as the event.
pub fn event_line(event: &Event) -> (line: String)
    ensures
        line@ == json::fields_text(event_fields(event@)),
        line@.len() > 0 && line@[0] == '{' && !line@.contains('\n'),
        json::reads_as(line@, event_tree(event@)),
{
    let fields = fields_of(event);
    proof {
        lemma_event_keys(event@);
        lemma_event_shallow(event@);
    }
    object_text(&fields)
}

} // verus!
