# fmtguard

Scoped, gated Rust formatting: the caller decides what may be formatted, the
formatter's output is clipped to that scope, and mechanical gates decide
whether anything is written.

The library under `src/` is verified with Verus. `app/` holds what touches the
outside: the command line, processes, files and JSON output.

| module | what it does |
|--------|--------------|
| `text` | characters, lines, numbers |
| `types` | line ranges, files, scopes |
| `scope` | scopes from what git or jj print; exclusion globs |
| `diff`, `clip` | line diffs, and keeping the hunks that touch the scope |
| `unified` | reading a patch back as a unified diff |
| `engine` | what the formatter's output means for a file |
| `double`, `gates` | the mechanical gates |
| `sandbox` | verifying a patch in a git worktree |
| `report` | the report and the patch of a run |
| `run` | what a run decides and writes |
| `json` | JSON values through serde_json |
| `events`, `journal`, `replay` | the event log, and reports rebuilt from it |
| `lsp` | language server messages, framing and text edits |
| `cli` | the command line |
