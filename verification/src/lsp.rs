//! The language server protocol: messages, framing, text edits, and what a
//! session decides.

use crate::json;
use crate::json::{
    Json, JsonTree, json_object, json_str, parse_bytes, push_field, to_bytes, to_text,
};
use crate::text;
use crate::text::{
    NumberError, chars_of, decimal_text, has_prefix, parse_number, same_text, split_lines,
    split_pieces, string_of, sub_chars, trimmed,
};
use vstd::prelude::*;

verus! {

/// What kind of failure an [`LspError`] is.
#[derive(Debug, Clone, Copy, PartialEq, Eq, Structural)]
pub enum LspErrorKind {
    InvalidInput,
    InvalidData,
    TimedOut,
    UnexpectedEof,
    Other,
}

/// Why a step of the protocol failed.
#[derive(Debug)]
pub struct LspError {
    pub kind: LspErrorKind,
    pub message: String,
}

/// What an [`LspError`] stands for.
pub struct LspErrorView {
    pub kind: LspErrorKind,
    pub message: Seq<char>,
}

impl View for LspError {
    type V = LspErrorView;

    open spec fn view(&self) -> LspErrorView {
        LspErrorView { kind: self.kind, message: self.message@ }
    }
}

fn lsp_error(kind: LspErrorKind, message: &str) -> (error: LspError)
    ensures
        error@ == (LspErrorView { kind, message: message@ }),
{
    LspError { kind, message: message.to_string() }
}

/// The value `{"rustfmt": {"rangeFormatting": {"enable": true}}}`.
pub open spec fn range_formatting_enabled() -> JsonTree {
    json::object(
        seq![
            (
                "rustfmt"@,
                json::object(
                    seq![("rangeFormatting"@, json::object(seq![("enable"@,
                        JsonTree::Bool(true))]))],
                ),
            ),
        ],
    )
}

fn enabled() -> (json: Json)
    ensures
        json@ == range_formatting_enabled(),
{
    let mut enable: Vec<(String, Json)> = Vec::new();
    push_field(&mut enable, "enable", Json::Bool(true));
    assert(json::field_trees(enable@) == seq![("enable"@, JsonTree::Bool(true))]);
    let mut formatting: Vec<(String, Json)> = Vec::new();
    push_field(&mut formatting, "rangeFormatting", json_object(enable));
    assert(json::field_trees(formatting@) == seq![
        ("rangeFormatting"@, json::object(seq![("enable"@, JsonTree::Bool(true))])),
    ]);
    let mut rustfmt: Vec<(String, Json)> = Vec::new();
    push_field(&mut rustfmt, "rustfmt", json_object(formatting));
    assert(json::field_trees(rustfmt@) == seq![
        (
            "rustfmt"@,
            json::object(seq![("rangeFormatting"@, json::object(seq![("enable"@,
                JsonTree::Bool(true))]))]),
        ),
    ]);
    json_object(rustfmt)
}

fn empty_object() -> (json: Json)
    ensures
        json@ == json::object(Seq::empty()),
{
    let none: Vec<(String, Json)> = Vec::new();
    assert(json::field_trees(none@) == Seq::<(Seq<char>, JsonTree)>::empty());
    json_object(none)
}

/// The parameters of the `initialize` request.
pub open spec fn initialize_params(root_uri: Seq<char>) -> JsonTree {
    json::object(
        seq![
            ("processId"@, JsonTree::Null),
            ("rootUri"@, JsonTree::Str(root_uri)),
            ("capabilities"@, json::object(Seq::empty())),
            ("initializationOptions"@, range_formatting_enabled()),
            ("settings"@, range_formatting_enabled()),
        ],
    )
}

/// A request: it has an id, and is answered.
pub open spec fn request_message(id: int, method: Seq<char>, params: JsonTree) -> JsonTree {
    json::object(
        seq![
            ("jsonrpc"@, JsonTree::Str("2.0"@)),
            ("id"@, JsonTree::Integer(id)),
            ("method"@, JsonTree::Str(method)),
            ("params"@, params),
        ],
    )
}

/// A notification: it has no id, and is not answered.
pub open spec fn notification_message(method: Seq<char>, params: JsonTree) -> JsonTree {
    json::object(
        seq![
            ("jsonrpc"@, JsonTree::Str("2.0"@)),
            ("method"@, JsonTree::Str(method)),
            ("params"@, params),
        ],
    )
}

fn request_of(id: u64, method: &str, params: Json) -> (message: Json)
    ensures
        message@ == request_message(id as int, method@, params@),
{
    let mut fields: Vec<(String, Json)> = Vec::new();
    push_field(&mut fields, "jsonrpc", json_str("2.0"));
    push_field(&mut fields, "id", Json::UInt(id));
    push_field(&mut fields, "method", json_str(method));
    push_field(&mut fields, "params", params);
    assert(json::field_trees(fields@) == seq![
        ("jsonrpc"@, JsonTree::Str("2.0"@)),
        ("id"@, JsonTree::Integer(id as int)),
        ("method"@, JsonTree::Str(method@)),
        ("params"@, params@),
    ]);
    json_object(fields)
}

fn notification_of(method: &str, params: Json) -> (message: Json)
    ensures
        message@ == notification_message(method@, params@),
{
    let mut fields: Vec<(String, Json)> = Vec::new();
    push_field(&mut fields, "jsonrpc", json_str("2.0"));
    push_field(&mut fields, "method", json_str(method));
    push_field(&mut fields, "params", params);
    assert(json::field_trees(fields@) == seq![
        ("jsonrpc"@, JsonTree::Str("2.0"@)),
        ("method"@, JsonTree::Str(method@)),
        ("params"@, params@),
    ]);
    json_object(fields)
}

/// The `initialize` request.
pub fn initialize(id: u64, root_uri: &str) -> (message: Json)
    ensures
        message@ == request_message(id as int, "initialize"@, initialize_params(root_uri@)),
{
    let mut params: Vec<(String, Json)> = Vec::new();
    push_field(&mut params, "processId", Json::Null);
    push_field(&mut params, "rootUri", json_str(root_uri));
    push_field(&mut params, "capabilities", empty_object());
    push_field(&mut params, "initializationOptions", enabled());
    push_field(&mut params, "settings", enabled());
    assert(json::field_trees(params@) == seq![
        ("processId"@, JsonTree::Null),
        ("rootUri"@, JsonTree::Str(root_uri@)),
        ("capabilities"@, json::object(Seq::empty())),
        ("initializationOptions"@, range_formatting_enabled()),
        ("settings"@, range_formatting_enabled()),
    ]);
    request_of(id, "initialize", json_object(params))
}

/// The `initialized` notification.
pub fn initialized() -> (message: Json)
    ensures
        message@ == notification_message("initialized"@, json::object(Seq::empty())),
{
    notification_of("initialized", empty_object())
}

/// The parameters of the `textDocument/didOpen` notification.
pub open spec fn did_open_params(
    uri: Seq<char>,
    language_id: Seq<char>,
    content: Seq<char>,
) -> JsonTree {
    json::object(
        seq![
            (
                "textDocument"@,
                json::object(
                    seq![
                        ("uri"@, JsonTree::Str(uri)),
                        ("languageId"@, JsonTree::Str(language_id)),
                        ("version"@, JsonTree::Integer(1)),
                        ("text"@, JsonTree::Str(content)),
                    ],
                ),
            ),
        ],
    )
}

/// The `textDocument/didOpen` notification.
pub fn did_open(uri: &str, language_id: &str, content: &str) -> (message: Json)
    ensures
        message@ == notification_message(
            "textDocument/didOpen"@,
            did_open_params(uri@, language_id@, content@),
        ),
{
    let mut document: Vec<(String, Json)> = Vec::new();
    push_field(&mut document, "uri", json_str(uri));
    push_field(&mut document, "languageId", json_str(language_id));
    push_field(&mut document, "version", Json::UInt(1));
    push_field(&mut document, "text", json_str(content));
    let ghost wanted = seq![
        ("uri"@, JsonTree::Str(uri@)),
        ("languageId"@, JsonTree::Str(language_id@)),
        ("version"@, JsonTree::Integer(1)),
        ("text"@, JsonTree::Str(content@)),
    ];
    assert(json::field_trees(document@) == wanted);
    let mut params: Vec<(String, Json)> = Vec::new();
    push_field(&mut params, "textDocument", json_object(document));
    assert(json::field_trees(params@) == seq![("textDocument"@, json::object(wanted))]);
    notification_of("textDocument/didOpen", json_object(params))
}

/// A position: a line, and a column in UTF-16 units.
pub open spec fn position_tree(line: int, character: int) -> JsonTree {
    json::object(
        seq![
            ("line"@, JsonTree::Integer(line)),
            ("character"@, JsonTree::Integer(character)),
        ],
    )
}

/// A range between two positions.
pub open spec fn range_tree(start: JsonTree, end: JsonTree) -> JsonTree {
    json::object(seq![("start"@, start), ("end"@, end)])
}

/// The parameters of the `textDocument/rangeFormatting` request.
pub open spec fn range_formatting_params(uri: Seq<char>, range: JsonTree) -> JsonTree {
    json::object(
        seq![
            ("textDocument"@, json::object(seq![("uri"@, JsonTree::Str(uri))])),
            ("range"@, range),
            (
                "options"@,
                json::object(
                    seq![
                        ("tabSize"@, JsonTree::Integer(4)),
                        ("insertSpaces"@, JsonTree::Bool(true)),
                    ],
                ),
            ),
        ],
    )
}

fn position_json(line: u32, character: u32) -> (json: Json)
    ensures
        json@ == position_tree(line as int, character as int),
{
    let mut fields: Vec<(String, Json)> = Vec::new();
    push_field(&mut fields, "line", Json::UInt(line as u64));
    push_field(&mut fields, "character", Json::UInt(character as u64));
    assert(json::field_trees(fields@) == seq![
        ("line"@, JsonTree::Integer(line as int)),
        ("character"@, JsonTree::Integer(character as int)),
    ]);
    json_object(fields)
}

/// The `textDocument/rangeFormatting` request.
pub fn range_formatting(
    id: u64,
    uri: &str,
    start_line: u32,
    start_character: u32,
    end_line: u32,
    end_character: u32,
) -> (message: Json)
    ensures
        message@ == request_message(
            id as int,
            "textDocument/rangeFormatting"@,
            range_formatting_params(
                uri@,
                range_tree(
                    position_tree(start_line as int, start_character as int),
                    position_tree(end_line as int, end_character as int),
                ),
            ),
        ),
{
    let mut document: Vec<(String, Json)> = Vec::new();
    push_field(&mut document, "uri", json_str(uri));
    assert(json::field_trees(document@) == seq![("uri"@, JsonTree::Str(uri@))]);
    let start = position_json(start_line, start_character);
    let end = position_json(end_line, end_character);
    let ghost bounds = seq![("start"@, start@), ("end"@, end@)];
    let mut range: Vec<(String, Json)> = Vec::new();
    push_field(&mut range, "start", start);
    push_field(&mut range, "end", end);
    assert(json::field_trees(range@) == bounds);
    let mut options: Vec<(String, Json)> = Vec::new();
    push_field(&mut options, "tabSize", Json::UInt(4));
    push_field(&mut options, "insertSpaces", Json::Bool(true));
    let ghost chosen = seq![
        ("tabSize"@, JsonTree::Integer(4)),
        ("insertSpaces"@, JsonTree::Bool(true)),
    ];
    assert(json::field_trees(options@) == chosen);
    let mut params: Vec<(String, Json)> = Vec::new();
    push_field(&mut params, "textDocument", json_object(document));
    push_field(&mut params, "range", json_object(range));
    push_field(&mut params, "options", json_object(options));
    assert(json::field_trees(params@) == seq![
        ("textDocument"@, json::object(seq![("uri"@, JsonTree::Str(uri@))])),
        ("range"@, json::object(bounds)),
        ("options"@, json::object(chosen)),
    ]);
    request_of(id, "textDocument/rangeFormatting", json_object(params))
}

/// The `shutdown` request.
pub open spec fn shutdown_message(id: int) -> JsonTree {
    json::object(
        seq![
            ("jsonrpc"@, JsonTree::Str("2.0"@)),
            ("id"@, JsonTree::Integer(id)),
            ("method"@, JsonTree::Str("shutdown"@)),
        ],
    )
}

/// The `shutdown` request.
pub fn shutdown(id: u64) -> (message: Json)
    ensures
        message@ == shutdown_message(id as int),
{
    let mut fields: Vec<(String, Json)> = Vec::new();
    push_field(&mut fields, "jsonrpc", json_str("2.0"));
    push_field(&mut fields, "id", Json::UInt(id));
    push_field(&mut fields, "method", json_str("shutdown"));
    assert(json::field_trees(fields@) == seq![
        ("jsonrpc"@, JsonTree::Str("2.0"@)),
        ("id"@, JsonTree::Integer(id as int)),
        ("method"@, JsonTree::Str("shutdown"@)),
    ]);
    json_object(fields)
}

/// The `exit` notification, which ends a session.
pub fn exit() -> (message: Json)
    ensures
        message@ == json::object(
            seq![("jsonrpc"@, JsonTree::Str("2.0"@)), ("method"@, JsonTree::Str("exit"@))],
        ),
{
    let mut fields: Vec<(String, Json)> = Vec::new();
    push_field(&mut fields, "jsonrpc", json_str("2.0"));
    push_field(&mut fields, "method", json_str("exit"));
    assert(json::field_trees(fields@) == seq![
        ("jsonrpc"@, JsonTree::Str("2.0"@)),
        ("method"@, JsonTree::Str("exit"@)),
    ]);
    json_object(fields)
}

/// How many UTF-16 units a character takes.
pub open spec fn utf16_width(c: char) -> int {
    if c as u32 >= 0x1_0000 {
        2
    } else {
        1
    }
}

/// How many UTF-16 units a text takes.
pub open spec fn utf16_len(t: Seq<char>) -> int
    decreases t.len(),
{
    if t.len() == 0 {
        0
    } else {
        utf16_len(t.drop_last()) + utf16_width(t.last())
    }
}

/// How many UTF-16 units a character takes.
fn char_width(c: char) -> (width: u64)
    ensures
        width == utf16_width(c),
{
    if c as u32 >= 0x1_0000 {
        2
    } else {
        1
    }
}

/// Counts the UTF-16 units of a text, modulo 2^32.
fn count_units(t: &Vec<char>) -> (units: u32)
    ensures
        units == utf16_len(t@) % 0x1_0000_0000,
{
    let mut units: u64 = 0;
    assert(t@.take(0) == Seq::<char>::empty());
    for i in 0..t.len()
        invariant
            units == utf16_len(t@.take(i as int)) % 0x1_0000_0000,
            units < 0x1_0000_0000,
    {
        assert(t@.take(i + 1).drop_last() == t@.take(i as int));
        units = (units + char_width(t[i])) % 0x1_0000_0000;
    }
    assert(t@.take(t@.len() as int) == t@);
    units as u32
}

/// The protocol's range of the 1-based inclusive lines `start` to `end`: from
/// the start of the first to the end of the last. Numbers are kept in 32 bits.
pub open spec fn line_range_of(t: Seq<char>, start: int, end: int) -> Result<
    (int, int, int, int),
    Seq<char>,
> {
    if start == 0 || end < start {
        Err("invalid line range"@)
    } else if end > text::lines(t).len() {
        Err("line range exceeds document"@)
    } else {
        Ok(
            (
                (start - 1) % 0x1_0000_0000,
                0,
                (end - 1) % 0x1_0000_0000,
                utf16_len(text::lines(t)[end - 1]) % 0x1_0000_0000,
            ),
        )
    }
}

/// The protocol's range of the 1-based inclusive lines `start` to `end`: start
/// line, start column, end line, end column.
pub fn line_range(content: &str, start: usize, end: usize) -> (range: Result<
    (u32, u32, u32, u32),
    LspError,
>)
    ensures
        match range {
            Ok(r) => line_range_of(content@, start as int, end as int) == Ok::<
                (int, int, int, int),
                Seq<char>,
            >((r.0 as int, r.1 as int, r.2 as int, r.3 as int)),
            Err(e) => e.kind == LspErrorKind::InvalidInput && line_range_of(
                content@,
                start as int,
                end as int,
            ) == Err::<(int, int, int, int), Seq<char>>(e.message@),
        },
{
    if start == 0 || end < start {
        return Err(lsp_error(LspErrorKind::InvalidInput, "invalid line range"));
    }
    let chars = chars_of(content);
    let all = split_lines(chars.as_slice());
    if end > all.len() {
        return Err(lsp_error(LspErrorKind::InvalidInput, "line range exceeds document"));
    }
    assert(text::rows(all@)[end - 1] == all@[end - 1]@);
    let start_line: u64 = (start - 1) as u64 % 0x1_0000_0000;
    let end_line: u64 = (end - 1) as u64 % 0x1_0000_0000;
    Ok((start_line as u32, 0, end_line as u32, count_units(&all[end - 1])))
}

/// The character of a line at which a column of UTF-16 units lies.
pub open spec fn column_of(line: Seq<char>, units: int) -> Result<int, Seq<char>>
    decreases line.len(),
{
    if units == 0 {
        Ok(0)
    } else if line.len() == 0 {
        Err("LSP position column out of bounds"@)
    } else if utf16_width(line[0]) > units {
        Err("LSP position splits UTF-16 character"@)
    } else {
        match column_of(line.skip(1), units - utf16_width(line[0])) {
            Ok(at) => Ok(at + 1),
            Err(message) => Err(message),
        }
    }
}

/// How many characters stand before line `n`.
pub open spec fn line_start(pieces: Seq<Seq<char>>, n: int) -> int
    decreases n,
{
    if n <= 0 {
        0
    } else {
        line_start(pieces, n - 1) + pieces[n - 1].len()
    }
}

/// The character of a text at which a position lies.
pub open spec fn offset_of(t: Seq<char>, line: int, units: int) -> Result<int, Seq<char>> {
    if line < text::pieces(t).len() {
        match column_of(text::pieces(t)[line], units) {
            Ok(at) => Ok(line_start(text::pieces(t), line) + at),
            Err(message) => Err(message),
        }
    } else if line == text::lines(t).len() && t.len() > 0 && t.last() == '\n' && units == 0 {
        Ok(t.len() as int)
    } else {
        Err("LSP position line out of bounds"@)
    }
}

/// The character of a text at which a position of the protocol lies.
pub open spec fn position_of(t: Seq<char>, position: JsonTree) -> Result<int, Seq<char>> {
    match json::u64_of(json::item(position, "line"@)) {
        None => Err("LSP position missing line"@),
        Some(line) => match json::u64_of(json::item(position, "character"@)) {
            None => Err("LSP position missing character"@),
            Some(units) => offset_of(t, line as int, units as int),
        },
    }
}

/// Finds the character of a line at which a column of UTF-16 units lies.
fn utf16_column(line: &Vec<char>, target: u64) -> (at: Result<usize, LspError>)
    ensures
        match at {
            Ok(at) => column_of(line@, target as int) == Ok::<int, Seq<char>>(at as int) && at
                <= line@.len(),
            Err(e) => e.kind == LspErrorKind::InvalidData && column_of(line@, target as int)
                == Err::<int, Seq<char>>(e.message@),
        },
{
    let mut left: u64 = target;
    assert(line@.skip(0) == line@);
    for i in 0..line.len()
        invariant
            match column_of(line@.skip(i as int), left as int) {
                Ok(at) => column_of(line@, target as int) == Ok::<int, Seq<char>>(at + i),
                Err(message) => column_of(line@, target as int) == Err::<int, Seq<char>>(message),
            },
    {
        let ghost rest = line@.skip(i as int);
        if left == 0 {
            return Ok(i);
        }
        let width: u64 = char_width(line[i]);
        assert(rest[0] == line@[i as int]);
        if width > left {
            return Err(
                lsp_error(LspErrorKind::InvalidData, "LSP position splits UTF-16 character"),
            );
        }
        assert(rest.skip(1) == line@.skip(i + 1));
        left = left - width;
    }
    assert(line@.skip(line@.len() as int).len() == 0);
    if left == 0 {
        Ok(line.len())
    } else {
        Err(lsp_error(LspErrorKind::InvalidData, "LSP position column out of bounds"))
    }
}

pub proof fn lemma_line_start(t: Seq<char>, n: int)
    requires
        0 <= n <= text::pieces(t).len(),
    ensures
        line_start(text::pieces(t), n) <= t.len(),
        n < text::pieces(t).len() ==> line_start(text::pieces(t), n)
            + text::pieces(t)[n].len() <= t.len(),
        n == text::pieces(t).len() ==> line_start(text::pieces(t), n) == t.len(),
    decreases t.len(),
{
    if t.len() > 0 {
        text::lemma_first_of_bounds(t, '\n');
        let rest = t.skip(text::piece_end(t));
        assert(text::pieces(t) == seq![t.take(text::piece_end(t))] + text::pieces(rest));
        if n > 0 {
            lemma_line_start(rest, n - 1);
            lemma_line_start_shift(t.take(text::piece_end(t)), text::pieces(rest), n);
        }
    }
}

proof fn lemma_line_start_shift(first: Seq<char>, rest: Seq<Seq<char>>, n: int)
    requires
        1 <= n <= rest.len() + 1,
    ensures
        line_start(seq![first] + rest, n) == first.len() + line_start(rest, n - 1),
    decreases n,
{
    if n > 1 {
        lemma_line_start_shift(first, rest, n - 1);
    } else {
        assert(line_start(seq![first] + rest, 0) == 0);
    }
}

/// Finds the character of a text at which a position lies.
fn find_offset(t: &Vec<char>, line: u64, units: u64) -> (at: Result<usize, LspError>)
    ensures
        match at {
            Ok(at) => offset_of(t@, line as int, units as int) == Ok::<int, Seq<char>>(at as int)
                && at <= t@.len(),
            Err(e) => e.kind == LspErrorKind::InvalidData && offset_of(
                t@,
                line as int,
                units as int,
            ) == Err::<int, Seq<char>>(e.message@),
        },
{
    let all = split_pieces(t.as_slice());
    let count: usize = all.len();
    let total: usize = t.len();
    let ghost wanted = text::pieces(t@);
    if line < count as u64 {
        let index: usize = line as usize;
        let mut start: usize = 0;
        for i in 0..index
            invariant
                index < count == all@.len(),
                text::rows(all@) == wanted,
                wanted == text::pieces(t@),
                total == t@.len(),
                start == line_start(wanted, i as int),
        {
            assert(text::rows(all@)[i as int] == all@[i as int]@);
            proof {
                lemma_line_start(t@, i as int);
            }
            start += all[i].len();
        }
        assert(text::rows(all@)[index as int] == all@[index as int]@);
        proof {
            lemma_line_start(t@, index as int);
        }
        return match utf16_column(&all[index], units) {
            Ok(at) => Ok(start + at),
            Err(e) => Err(e),
        };
    }
    assert(text::lines(t@).len() == wanted.len());
    if line == count as u64 && total > 0 && t[total - 1] == '\n' && units == 0 {
        return Ok(total);
    }
    Err(lsp_error(LspErrorKind::InvalidData, "LSP position line out of bounds"))
}

/// Finds the character of a text at which a position of the protocol lies; no
/// position is like null.
fn find_position(t: &Vec<char>, position: Option<&Json>) -> (at: Result<usize, LspError>)
    ensures
        ({
            let tree = match position {
                Some(json) => json@,
                None => JsonTree::Null,
            };
            match at {
                Ok(at) => position_of(t@, tree) == Ok::<int, Seq<char>>(at as int) && at
                    <= t@.len(),
                Err(e) => e.kind == LspErrorKind::InvalidData && position_of(t@, tree) == Err::<
                    int,
                    Seq<char>,
                >(e.message@),
            }
        }),
{
    let line = match position {
        Some(json) => json.u64_at("line"),
        None => None,
    };
    let units = match position {
        Some(json) => json.u64_at("character"),
        None => None,
    };
    match line {
        None => Err(lsp_error(LspErrorKind::InvalidData, "LSP position missing line")),
        Some(line) => match units {
            None => Err(lsp_error(LspErrorKind::InvalidData, "LSP position missing character")),
            Some(units) => find_offset(t, line, units),
        },
    }
}

/// A text edit by character offsets: what stands between them is replaced.
struct Edit {
    start: usize,
    end: usize,
    replacement: Vec<char>,
}

/// A text edit by character offsets.
pub struct EditView {
    pub start: int,
    pub end: int,
    pub replacement: Seq<char>,
}

impl View for Edit {
    type V = EditView;

    closed spec fn view(&self) -> EditView {
        EditView {
            start: self.start as int,
            end: self.end as int,
            replacement: self.replacement@,
        }
    }
}

spec fn edit_views(edits: Seq<Edit>) -> Seq<EditView> {
    edits.map_values(|e: Edit| e@)
}

/// The edit that a `TextEdit` of the protocol asks for in a text.
pub open spec fn edit_of(t: Seq<char>, edit: JsonTree) -> Result<EditView, Seq<char>> {
    match json::member(edit, "range"@) {
        None => Err("TextEdit missing range"@),
        Some(range) => match position_of(t, json::item(range, "start"@)) {
            Err(message) => Err(message),
            Ok(start) => match position_of(t, json::item(range, "end"@)) {
                Err(message) => Err(message),
                Ok(end) => if end < start {
                    Err("TextEdit range is reversed"@)
                } else {
                    match json::str_of(json::item(edit, "newText"@)) {
                        None => Err("TextEdit missing newText"@),
                        Some(replacement) => Ok(EditView { start, end, replacement }),
                    }
                },
            },
        },
    }
}

/// The edits that `TextEdit`s of the protocol ask for, or the first error.
pub open spec fn edits_of(t: Seq<char>, edits: Seq<JsonTree>) -> Result<Seq<EditView>, Seq<char>>
    decreases edits.len(),
{
    if edits.len() == 0 {
        Ok(Seq::empty())
    } else {
        match edits_of(t, edits.drop_last()) {
            Err(message) => Err(message),
            Ok(before) => match edit_of(t, edits.last()) {
                Err(message) => Err(message),
                Ok(edit) => Ok(before.push(edit)),
            },
        }
    }
}

/// Whether `a` starts behind `b`, or starts with it and ends no earlier.
pub open spec fn comes_first(a: EditView, b: EditView) -> bool {
    a.start > b.start || (a.start == b.start && a.end >= b.end)
}

/// Sorted edits with one more, behind all that come first.
pub open spec fn inserted(sorted: Seq<EditView>, edit: EditView) -> Seq<EditView>
    decreases sorted.len(),
{
    if sorted.len() == 0 || comes_first(sorted.last(), edit) {
        sorted.push(edit)
    } else {
        inserted(sorted.drop_last(), edit).push(sorted.last())
    }
}

/// The edits from the end of the text to its start; equal ones keep their order.
pub open spec fn from_the_end(edits: Seq<EditView>) -> Seq<EditView>
    decreases edits.len(),
{
    if edits.len() == 0 {
        Seq::empty()
    } else {
        inserted(from_the_end(edits.drop_last()), edits.last())
    }
}

/// Whether an edit reaches into the one before it in the order from the end.
pub open spec fn overlapping(sorted: Seq<EditView>) -> bool {
    exists|i: int, j: int|
        0 <= i < sorted.len() && j == i + 1 && j < sorted.len() && (#[trigger] sorted[i]).start < (
        #[trigger] sorted[j]).end
}

/// The text with edits, sorted from its end, made: what no edit covers stays.
pub open spec fn with_edits(t: Seq<char>, sorted: Seq<EditView>) -> Seq<char>
    decreases sorted.len(),
{
    if sorted.len() == 0 {
        t
    } else {
        with_edits(t.take(sorted[0].start), sorted.skip(1)) + sorted[0].replacement + t.skip(
            sorted[0].end,
        )
    }
}

/// The text that `TextEdit`s of the protocol make of a text.
pub open spec fn edited(t: Seq<char>, edits: Seq<JsonTree>) -> Result<Seq<char>, Seq<char>> {
    match edits_of(t, edits) {
        Err(message) => Err(message),
        Ok(edits) => {
            let sorted = from_the_end(edits);
            if overlapping(sorted) {
                Err("overlapping TextEdits"@)
            } else {
                Ok(with_edits(t, sorted))
            }
        },
    }
}

/// Reads a `TextEdit` of the protocol.
fn read_edit(t: &Vec<char>, edit: &Json) -> (read: Result<Edit, LspError>)
    ensures
        match read {
            Ok(e) => edit_of(t@, edit@) == Ok::<EditView, Seq<char>>(e@) && e.start <= e.end
                <= t@.len(),
            Err(e) => e.kind == LspErrorKind::InvalidData && edit_of(t@, edit@) == Err::<
                EditView,
                Seq<char>,
            >(e.message@),
        },
{
    let range = match edit.get("range") {
        Some(range) => range,
        None => {
            return Err(lsp_error(LspErrorKind::InvalidData, "TextEdit missing range"));
        },
    };
    let start: usize = match find_position(t, range.get("start")) {
        Ok(start) => start,
        Err(e) => {
            return Err(e);
        },
    };
    let end: usize = match find_position(t, range.get("end")) {
        Ok(end) => end,
        Err(e) => {
            return Err(e);
        },
    };
    if end < start {
        return Err(lsp_error(LspErrorKind::InvalidData, "TextEdit range is reversed"));
    }
    match edit.str_at("newText") {
        Some(replacement) => Ok(Edit { start, end, replacement: chars_of(replacement) }),
        None => Err(lsp_error(LspErrorKind::InvalidData, "TextEdit missing newText")),
    }
}

proof fn lemma_inserted(sorted: Seq<EditView>, edit: EditView, i: int)
    requires
        0 <= i <= sorted.len(),
        i > 0 ==> comes_first(sorted[i - 1], edit),
        forall|j: int| i <= j < sorted.len() ==> !comes_first(#[trigger] sorted[j], edit),
    ensures
        inserted(sorted, edit) == sorted.insert(i, edit),
    decreases sorted.len(),
{
    if i == sorted.len() {
        assert(sorted.insert(i, edit) == sorted.push(edit));
    } else {
        assert(!comes_first(sorted[sorted.len() - 1], edit));
        lemma_inserted(sorted.drop_last(), edit, i);
        assert(sorted.insert(i, edit) == sorted.drop_last().insert(i, edit).push(sorted.last()));
    }
}

/// Puts an edit where it belongs.
fn insert_edit(sorted: &mut Vec<Edit>, edit: Edit)
    ensures
        edit_views(final(sorted)@) == inserted(edit_views(old(sorted)@), edit@),
        forall|j: int|
            0 <= j < final(sorted)@.len() ==> (#[trigger] final(sorted)@[j]) == edit || exists|
                k: int,
            |
                0 <= k < old(sorted)@.len() && old(sorted)@[k] == final(sorted)@[j],
{
    let ghost before = sorted@;
    let ghost views = edit_views(before);
    let mut i: usize = sorted.len();
    while i > 0 && !(sorted[i - 1].start > edit.start || (sorted[i - 1].start == edit.start
        && sorted[i - 1].end >= edit.end))
        invariant
            i <= sorted@.len(),
            sorted@ == before,
            views == edit_views(before),
            forall|j: int| i <= j < before.len() ==> !comes_first(#[trigger] views[j], edit@),
        decreases i,
    {
        assert(views[i - 1] == before[i - 1]@);
        i -= 1;
    }
    proof {
        if i > 0 {
            assert(views[i - 1] == before[i - 1]@);
        }
        lemma_inserted(views, edit@, i as int);
    }
    sorted.insert(i, edit);
    assert(edit_views(sorted@) == views.insert(i as int, edit@));
    assert forall|j: int| 0 <= j < sorted@.len() implies (#[trigger] sorted@[j]) == edit || exists|
        k: int,
    |
        0 <= k < before.len() && before[k] == sorted@[j] by {
        if j < i {
            assert(before[j] == sorted@[j]);
        } else if j > i {
            assert(before[j - 1] == sorted@[j]);
        }
    }
}

/// Making one edit more moves it, and the text up to the one before, to the
/// finished end.
proof fn lemma_one_edit(t: Seq<char>, sorted: Seq<EditView>, i: int, head: int, tail: Seq<char>)
    requires
        0 <= i < sorted.len(),
        0 <= sorted[i].start <= sorted[i].end <= head <= t.len(),
    ensures
        with_edits(t.take(head), sorted.skip(i)) + tail == with_edits(
            t.take(sorted[i].start),
            sorted.skip(i + 1),
        ) + (sorted[i].replacement + t.subrange(sorted[i].end, head) + tail),
{
    let front = t.take(head);
    assert(front.skip(sorted[i].end) == t.subrange(sorted[i].end, head));
    assert(front.take(sorted[i].start) == t.take(sorted[i].start));
    assert(sorted.skip(i)[0] == sorted[i]);
    assert(sorted.skip(i).skip(1) == sorted.skip(i + 1));
}

/// Makes edits, sorted from the end of the text, that do not overlap.
fn make_edits(t: &Vec<char>, sorted: &Vec<Edit>) -> (out: Vec<char>)
    requires
        forall|j: int|
            0 <= j < sorted@.len() ==> (#[trigger] sorted@[j]).start <= sorted@[j].end
                <= t@.len(),
        !overlapping(edit_views(sorted@)),
    ensures
        out@ == with_edits(t@, edit_views(sorted@)),
{
    let ghost views = edit_views(sorted@);
    let mut head: usize = t.len();
    let mut tail: Vec<char> = Vec::new();
    proof {
        assert(t@.take(head as int) == t@);
        assert(views.skip(0) == views);
        assert(with_edits(t@, views) + Seq::<char>::empty() == with_edits(t@, views));
    }
    for i in 0..sorted.len()
        invariant
            views == edit_views(sorted@),
            !overlapping(views),
            forall|j: int|
                0 <= j < sorted@.len() ==> (#[trigger] sorted@[j]).start <= sorted@[j].end
                    <= t@.len(),
            head <= t@.len(),
            i > 0 ==> head == sorted@[i - 1].start,
            i == 0 ==> head == t@.len(),
            with_edits(t@, views) == with_edits(t@.take(head as int), views.skip(i as int))
                + tail@,
    {
        let edit = &sorted[i];
        proof {
            assert(views[i as int] == edit@);
            if i > 0 {
                assert(views[i - 1] == sorted@[i - 1]@);
            }
            assert(edit.end <= head);
        }
        let ghost old_tail = tail@;
        let mut next: Vec<char> = edit.replacement.clone();
        let mut between = sub_chars(t.as_slice(), edit.end, head);
        next.append(&mut between);
        next.append(&mut tail);
        proof {
            assert(next@ == edit.replacement@ + t@.subrange(edit.end as int, head as int)
                + old_tail);
            lemma_one_edit(t@, views, i as int, head as int, old_tail);
        }
        tail = next;
        head = edit.start;
    }
    assert(views.skip(views.len() as int).len() == 0);
    let mut out = sub_chars(t.as_slice(), 0, head);
    assert(out@ == t@.take(head as int));
    out.append(&mut tail);
    out
}

/// Makes the `TextEdit`s of the protocol in a text.
///
/// They may come in any order. Positions are lines and UTF-16 columns of the
/// text as it was; overlapping edits are refused.
pub fn apply_text_edits(content: &str, edits: &[Json]) -> (result: Result<String, LspError>)
    ensures
        match result {
            Ok(out) => edited(content@, json::trees(edits@)) == Ok::<Seq<char>, Seq<char>>(out@),
            Err(e) => e.kind == LspErrorKind::InvalidData && edited(content@, json::trees(edits@))
                == Err::<Seq<char>, Seq<char>>(e.message@),
        },
{
    let t = chars_of(content);
    let ghost all = json::trees(edits@);
    let ghost mut read: Seq<EditView> = Seq::empty();
    let mut sorted: Vec<Edit> = Vec::new();
    proof {
        assert(all.take(0) == Seq::<JsonTree>::empty());
        assert(edit_views(sorted@) == Seq::<EditView>::empty());
    }
    for i in 0..edits.len()
        invariant
            all == json::trees(edits@),
            t@ == content@,
            edits_of(t@, all.take(i as int)) == Ok::<Seq<EditView>, Seq<char>>(read),
            edit_views(sorted@) == from_the_end(read),
            forall|j: int|
                0 <= j < sorted@.len() ==> (#[trigger] sorted@[j]).start <= sorted@[j].end
                    <= t@.len(),
    {
        proof {
            assert(all.take(i + 1).drop_last() == all.take(i as int));
            assert(all.take(i + 1).last() == edits@[i as int]@);
        }
        match read_edit(&t, &edits[i]) {
            Ok(edit) => {
                proof {
                    let before = read;
                    read = read.push(edit@);
                    assert(read.drop_last() == before);
                }
                insert_edit(&mut sorted, edit);
            },
            Err(e) => {
                proof {
                    lemma_edits_error(t@, all, i + 1);
                }
                return Err(e);
            },
        }
    }
    assert(all.take(all.len() as int) == all);
    let ghost views = edit_views(sorted@);
    let mut i: usize = 1;
    while i < sorted.len()
        invariant
            1 <= i,
            views == edit_views(sorted@),
            t@ == content@,
            edits_of(content@, json::trees(edits@)) == Ok::<Seq<EditView>, Seq<char>>(read),
            views == from_the_end(read),
            forall|j: int, k: int|
                0 <= j < i && k == j + 1 && k < i && k < views.len() ==> (
                #[trigger] views[j]).start >= (#[trigger] views[k]).end,
        decreases sorted@.len() - i,
    {
        proof {
            assert(views[i as int] == sorted@[i as int]@);
            assert(views[i - 1] == sorted@[i - 1]@);
        }
        if sorted[i - 1].start < sorted[i].end {
            return Err(lsp_error(LspErrorKind::InvalidData, "overlapping TextEdits"));
        }
        i += 1;
    }
    let out = make_edits(&t, &sorted);
    assert(out@.subrange(0, out@.len() as int) == out@);
    Ok(string_of(out.as_slice(), 0, out.len()))
}

/// An error among the first edits is the error of all of them.
proof fn lemma_edits_error(t: Seq<char>, edits: Seq<JsonTree>, n: int)
    requires
        0 <= n <= edits.len(),
        edits_of(t, edits.take(n)) is Err,
    ensures
        edits_of(t, edits) == edits_of(t, edits.take(n)),
    decreases edits.len() - n,
{
    if n == edits.len() {
        assert(edits.take(n) == edits);
    } else {
        assert(edits.take(n + 1).drop_last() == edits.take(n));
        lemma_edits_error(t, edits, n + 1);
    }
}

/// The order in which edits are made runs from the end of the text to its
/// start, and leaves no edit out.
pub proof fn law_edits_are_sorted(edits: Seq<EditView>)
    ensures
        from_the_end(edits).to_multiset() == edits.to_multiset(),
        forall|i: int, j: int|
            0 <= i < j < edits.len() ==> comes_first(
                #[trigger] from_the_end(edits)[i],
                #[trigger] from_the_end(edits)[j],
            ),
    decreases edits.len(),
{
    if edits.len() == 0 {
        assert(from_the_end(edits) == edits);
    } else {
        law_edits_are_sorted(edits.drop_last());
        let sorted = from_the_end(edits.drop_last());
        sorted.to_multiset_ensures();
        edits.drop_last().to_multiset_ensures();
        assert(sorted.len() == edits.len() - 1);
        lemma_inserted_sorted(sorted, edits.last());
        assert(edits == edits.drop_last().push(edits.last()));
    }
}

proof fn lemma_inserted_sorted(sorted: Seq<EditView>, edit: EditView)
    requires
        forall|i: int, j: int|
            0 <= i < j < sorted.len() ==> comes_first(#[trigger] sorted[i], #[trigger] sorted[j]),
    ensures
        inserted(sorted, edit).len() == sorted.len() + 1,
        inserted(sorted, edit).to_multiset() == sorted.to_multiset().insert(edit),
        forall|i: int, j: int|
            0 <= i < j < sorted.len() + 1 ==> comes_first(
                #[trigger] inserted(sorted, edit)[i],
                #[trigger] inserted(sorted, edit)[j],
            ),
        forall|x: EditView|
            sorted.len() > 0 && comes_first(sorted.last(), x) && comes_first(edit, x) ==> forall|
                i: int,
            |
                0 <= i < sorted.len() + 1 ==> comes_first(#[trigger] inserted(sorted, edit)[i], x),
    decreases sorted.len(),
{
    sorted.to_multiset_ensures();
    if sorted.len() == 0 || comes_first(sorted.last(), edit) {
        assert(inserted(sorted, edit) == sorted.push(edit));
    } else {
        let last = sorted.last();
        let shorter = sorted.drop_last();
        lemma_inserted_sorted(shorter, edit);
        let inner = inserted(shorter, edit);
        inner.to_multiset_ensures();
        shorter.to_multiset_ensures();
        assert(sorted == shorter.push(last));
        assert(comes_first(edit, last));
        assert(shorter.len() == 0 ==> inner == seq![edit]);
        assert(shorter.len() > 0 ==> comes_first(shorter.last(), last));
        assert(inserted(sorted, edit).to_multiset() == sorted.to_multiset().insert(edit));
    }
}

/// The edits of `TextEdit`s, each read.
spec fn read_edits(t: Seq<char>, edits: Seq<JsonTree>) -> Seq<EditView> {
    edits.map_values(|e: JsonTree| edit_of(t, e)->Ok_0)
}

proof fn lemma_edits_of(t: Seq<char>, edits: Seq<JsonTree>)
    ensures
        edits_of(t, edits) is Ok <==> forall|i: int|
            0 <= i < edits.len() ==> edit_of(t, #[trigger] edits[i]) is Ok,
        edits_of(t, edits) is Ok ==> edits_of(t, edits)->Ok_0 == read_edits(t, edits),
    decreases edits.len(),
{
    if edits.len() == 0 {
        assert(read_edits(t, edits) == Seq::<EditView>::empty());
    } else {
        let before = edits.drop_last();
        lemma_edits_of(t, before);
        if edits_of(t, edits) is Ok {
            assert forall|i: int| 0 <= i < edits.len() implies edit_of(
                t,
                #[trigger] edits[i],
            ) is Ok by {
                if i < before.len() {
                    assert(before[i] == edits[i]);
                }
            }
            assert(read_edits(t, edits) == read_edits(t, before).push(
                edit_of(t, edits.last())->Ok_0,
            ));
        }
        if forall|i: int| 0 <= i < edits.len() ==> edit_of(t, #[trigger] edits[i]) is Ok {
            assert forall|i: int| 0 <= i < before.len() implies edit_of(
                t,
                #[trigger] before[i],
            ) is Ok by {
                assert(before[i] == edits[i]);
            }
            assert(edit_of(t, edits[edits.len() - 1]) is Ok);
        }
    }
}

proof fn lemma_same_members<A>(a: Seq<A>, b: Seq<A>, x: A)
    requires
        a.to_multiset() == b.to_multiset(),
        a.contains(x),
    ensures
        b.contains(x),
{
    a.to_multiset_ensures();
    b.to_multiset_ensures();
    assert(a.to_multiset().count(x) > 0);
}

proof fn lemma_read_edits_reordered(t: Seq<char>, a: Seq<JsonTree>, b: Seq<JsonTree>)
    requires
        a.to_multiset() == b.to_multiset(),
    ensures
        read_edits(t, a).to_multiset() == read_edits(t, b).to_multiset(),
    decreases a.len(),
{
    a.to_multiset_ensures();
    b.to_multiset_ensures();
    if a.len() == 0 {
        assert(a == b);
    } else {
        let x = a.last();
        assert(a.contains(x)) by {
            assert(a[a.len() - 1] == x);
        }
        lemma_same_members(a, b, x);
        let j = b.index_of(x);
        assert(a.remove(a.len() - 1) == a.drop_last());
        lemma_read_edits_reordered(t, a.drop_last(), b.remove(j));
        let c = read_edits(t, a);
        let d = read_edits(t, b);
        c.to_multiset_ensures();
        d.to_multiset_ensures();
        assert(read_edits(t, a.drop_last()) == c.remove(c.len() - 1));
        assert(read_edits(t, b.remove(j)) == d.remove(j));
        assert(c[c.len() - 1] == d[j]);
        assert(c.contains(c[c.len() - 1]));
        assert(d.contains(d[j]));
        assert(c.to_multiset() == c.to_multiset().remove(d[j]).insert(d[j]));
        assert(d.to_multiset() == d.to_multiset().remove(d[j]).insert(d[j]));
    }
}

/// Whether two edits replace the same part of the text.
pub open spec fn same_place(a: EditView, b: EditView) -> bool {
    a.start == b.start && a.end == b.end
}

proof fn lemma_one_order(a: Seq<EditView>, b: Seq<EditView>)
    requires
        a.to_multiset() == b.to_multiset(),
        forall|i: int, j: int|
            0 <= i < j < a.len() ==> comes_first(#[trigger] a[i], #[trigger] a[j]),
        forall|i: int, j: int|
            0 <= i < j < b.len() ==> comes_first(#[trigger] b[i], #[trigger] b[j]),
        forall|x: EditView, y: EditView|
            a.contains(x) && a.contains(y) && #[trigger] same_place(x, y) ==> x == y,
    ensures
        a == b,
    decreases a.len(),
{
    a.to_multiset_ensures();
    b.to_multiset_ensures();
    if a.len() == 0 {
        assert(a == b);
    } else {
        let x = a.last();
        let y = b.last();
        assert(a[a.len() - 1] == x && b[b.len() - 1] == y);
        assert(a.contains(x));
        assert(b.contains(y));
        lemma_same_members(b, a, y);
        lemma_same_members(a, b, x);
        if x != y {
            let i = a.index_of(y);
            let j = b.index_of(x);
            assert(comes_first(a[i], a[a.len() - 1]));
            assert(comes_first(b[j], b[b.len() - 1]));
            assert(same_place(x, y));
        }
        let c = a.drop_last();
        let d = b.drop_last();
        assert(a.remove(a.len() - 1) == c);
        assert(b.remove(b.len() - 1) == d);
        assert forall|p: EditView, q: EditView|
            c.contains(p) && c.contains(q) && #[trigger] same_place(p, q) implies p == q by {
            assert(a[c.index_of(p)] == p);
            assert(a[c.index_of(q)] == q);
        }
        lemma_one_order(c, d);
        assert(a == c.push(x));
        assert(b == d.push(y));
    }
}

/// The order in which a server lists its edits does not matter, as long as no
/// two of them ask for different texts in the same place: either every order is
/// refused, or every order makes the same text.
pub proof fn law_order_of_edits_does_not_matter(
    t: Seq<char>,
    edits: Seq<JsonTree>,
    reordered: Seq<JsonTree>,
)
    requires
        edits.to_multiset() == reordered.to_multiset(),
        forall|i: int, j: int|
            0 <= i < edits.len() && 0 <= j < edits.len() && edit_of(t, edits[i]) is Ok && edit_of(
                t,
                edits[j],
            ) is Ok && #[trigger] same_place(
                edit_of(t, edits[i])->Ok_0,
                edit_of(t, edits[j])->Ok_0,
            ) ==> edit_of(t, edits[i]) == edit_of(t, edits[j]),
    ensures
        edited(t, edits) is Ok <==> edited(t, reordered) is Ok,
        edited(t, edits) is Ok ==> edited(t, edits) == edited(t, reordered),
{
    edits.to_multiset_ensures();
    reordered.to_multiset_ensures();
    lemma_edits_of(t, edits);
    lemma_edits_of(t, reordered);
    assert forall|i: int| 0 <= i < edits.len() implies reordered.contains(#[trigger] edits[i]) by {
        lemma_same_members(edits, reordered, edits[i]);
    }
    assert forall|i: int| 0 <= i < reordered.len() implies edits.contains(
        #[trigger] reordered[i],
    ) by {
        lemma_same_members(reordered, edits, reordered[i]);
    }
    if edits_of(t, reordered) is Ok {
        assert forall|i: int| 0 <= i < edits.len() implies edit_of(
            t,
            #[trigger] edits[i],
        ) is Ok by {
            assert(reordered[reordered.index_of(edits[i])] == edits[i]);
        }
    }
    if edits_of(t, edits) is Ok {
        assert forall|i: int| 0 <= i < reordered.len() implies edit_of(
            t,
            #[trigger] reordered[i],
        ) is Ok by {
            assert(edits[edits.index_of(reordered[i])] == reordered[i]);
        }
        let a = read_edits(t, edits);
        let b = read_edits(t, reordered);
        lemma_read_edits_reordered(t, edits, reordered);
        law_edits_are_sorted(a);
        law_edits_are_sorted(b);
        let c = from_the_end(a);
        let d = from_the_end(b);
        a.to_multiset_ensures();
        b.to_multiset_ensures();
        c.to_multiset_ensures();
        d.to_multiset_ensures();
        assert forall|x: EditView, y: EditView|
            c.contains(x) && c.contains(y) && #[trigger] same_place(x, y) implies x == y by {
            lemma_same_members(c, a, x);
            lemma_same_members(c, a, y);
            let i = a.index_of(x);
            let j = a.index_of(y);
            assert(edit_of(t, edits[i]) is Ok && edit_of(t, edits[j]) is Ok);
            assert(x == edit_of(t, edits[i])->Ok_0);
            assert(y == edit_of(t, edits[j])->Ok_0);
            assert(same_place(edit_of(t, edits[i])->Ok_0, edit_of(t, edits[j])->Ok_0));
        }
        lemma_one_order(c, d);
    }
}

/// The text before the first edit and behind the last stays as it was.
pub proof fn law_text_around_edits_stays(t: Seq<char>, sorted: Seq<EditView>)
    requires
        sorted.len() > 0,
        forall|i: int|
            0 <= i < sorted.len() ==> 0 <= (#[trigger] sorted[i]).start <= sorted[i].end
                <= t.len(),
        !overlapping(sorted),
    ensures
        text::starts_with(with_edits(t, sorted), t.take(sorted.last().start)),
        text::ends_with(with_edits(t, sorted), t.skip(sorted[0].end)),
    decreases sorted.len(),
{
    let front = t.take(sorted[0].start);
    let rest = sorted.skip(1);
    let kept = t.take(sorted.last().start);
    let made = with_edits(front, rest);
    if rest.len() == 0 {
        assert(made == front);
        assert(made.take(kept.len() as int) == kept);
    } else {
        assert forall|i: int| 0 <= i < rest.len() implies 0 <= (#[trigger] rest[i]).start
            <= rest[i].end <= front.len() by {
            assert(rest[i] == sorted[i + 1]);
            lemma_ends_before(sorted, i + 1);
        }
        assert forall|i: int, j: int|
            0 <= i < rest.len() && j == i + 1 && j < rest.len() implies (#[trigger] rest[i]).start
            >= (#[trigger] rest[j]).end by {
            assert(rest[i] == sorted[i + 1] && rest[j] == sorted[j + 1]);
        }
        law_text_around_edits_stays(front, rest);
        assert(rest.last() == sorted.last());
        assert(front.take(rest.last().start) == kept);
    }
    let whole = made + sorted[0].replacement + t.skip(sorted[0].end);
    assert(whole.take(kept.len() as int) == made.take(kept.len() as int));
    assert(whole.skip(whole.len() - t.skip(sorted[0].end).len()) == t.skip(sorted[0].end));
}

/// In the order from the end no edit reaches beyond the start of the first.
proof fn lemma_ends_before(sorted: Seq<EditView>, i: int)
    requires
        0 < i < sorted.len(),
        forall|j: int| 0 <= j < sorted.len() ==> (#[trigger] sorted[j]).start <= sorted[j].end,
        !overlapping(sorted),
    ensures
        sorted[i].end <= sorted[0].start,
    decreases i,
{
    assert(sorted[i - 1].start >= sorted[i].end);
    if i > 1 {
        lemma_ends_before(sorted, i - 1);
    }
}

/// The bytes of `"\r\n\r\n"`, which end the header of a frame.
pub open spec fn header_mark() -> Seq<u8> {
    seq![13u8, 10u8, 13u8, 10u8]
}

/// How long the header of a frame is: the index of the first mark.
pub open spec fn header_len(bytes: Seq<u8>) -> Option<int>
    decreases bytes.len(),
{
    if bytes.len() < 4 {
        None
    } else if bytes.take(4) == header_mark() {
        Some(0)
    } else {
        match header_len(bytes.skip(1)) {
            Some(at) => Some(at + 1),
            None => None,
        }
    }
}

/// Whether the mark stands at `i`.
pub open spec fn mark_at(bytes: Seq<u8>, i: int) -> bool {
    i + 4 <= bytes.len() && bytes[i] == 13 && bytes[i + 1] == 10 && bytes[i + 2] == 13 && bytes[i
        + 3] == 10
}

pub proof fn lemma_header_len(bytes: Seq<u8>, i: int)
    requires
        0 <= i <= bytes.len(),
        forall|j: int| 0 <= j < i ==> !#[trigger] mark_at(bytes, j),
    ensures
        mark_at(bytes, i) ==> header_len(bytes) == Some(i),
        i + 4 > bytes.len() ==> header_len(bytes) is None,
    decreases bytes.len(),
{
    if bytes.len() >= 4 {
        assert(bytes.take(4) == header_mark() <==> mark_at(bytes, 0)) by {
            if mark_at(bytes, 0) {
                assert(bytes.take(4) == header_mark());
            }
            if bytes.take(4) == header_mark() {
                assert(bytes.take(4)[0] == bytes[0] && bytes.take(4)[1] == bytes[1]);
                assert(bytes.take(4)[2] == bytes[2] && bytes.take(4)[3] == bytes[3]);
            }
        }
        if i > 0 {
            assert(!mark_at(bytes, 0));
            assert forall|j: int| 0 <= j < i - 1 implies !#[trigger] mark_at(bytes.skip(1), j) by {
                assert(!mark_at(bytes, j + 1));
            }
            lemma_header_len(bytes.skip(1), i - 1);
        }
    }
}

/// What stands behind `prefix` in the first line that starts with it.
pub open spec fn first_with_prefix(lines: Seq<Seq<char>>, prefix: Seq<char>) -> Option<Seq<char>>
    decreases lines.len(),
{
    if lines.len() == 0 {
        None
    } else if text::starts_with(lines[0], prefix) {
        Some(lines[0].skip(prefix.len() as int))
    } else {
        first_with_prefix(lines.skip(1), prefix)
    }
}

/// How a number that cannot be read is reported.
pub open spec fn number_message(error: NumberError) -> Seq<char> {
    match error {
        NumberError::Empty => "cannot parse integer from empty string"@,
        NumberError::InvalidDigit => "invalid digit found in string"@,
        NumberError::TooLarge => "number too large to fit in target type"@,
    }
}

/// The length of the body that a header announces.
pub open spec fn content_length(header: Seq<char>) -> Result<nat, Seq<char>> {
    match first_with_prefix(text::lines(header), "Content-Length:"@) {
        None => Err("missing Content-Length"@),
        Some(value) => match text::read_number(text::trim(value)) {
            Ok(n) => Ok(n),
            Err(error) => Err(number_message(error)),
        },
    }
}

/// The message with which `std::str::from_utf8` refuses bytes.
pub uninterp spec fn utf8_message(bytes: Seq<u8>) -> Seq<char>;

/// The length of the body that the bytes of a header announce.
pub open spec fn announced(header: Seq<u8>) -> Result<nat, Seq<char>> {
    if vstd::utf8::valid_utf8(header) {
        content_length(vstd::utf8::decode_utf8(header))
    } else {
        Err(utf8_message(header))
    }
}

/// The body of the first frame of a buffer, and what stays in the buffer.
pub struct Framed {
    pub body: Result<Option<Seq<u8>>, LspErrorView>,
    pub rest: Seq<u8>,
}

/// What decoding the first frame of a buffer gives, and what stays in the
/// buffer.
pub struct Decoded {
    pub message: Result<Option<JsonTree>, LspErrorView>,
    pub rest: Seq<u8>,
}

/// An error about what was received.
pub open spec fn bad_data(message: Seq<char>) -> LspErrorView {
    LspErrorView { kind: LspErrorKind::InvalidData, message }
}

/// The body of the first frame of a buffer; a frame that is not complete stays.
pub open spec fn framed(bytes: Seq<u8>) -> Framed {
    match header_len(bytes) {
        None => Framed { body: Ok(None), rest: bytes },
        Some(end) => match announced(bytes.take(end)) {
            Err(message) => Framed { body: Err(bad_data(message)), rest: bytes },
            Ok(length) => if bytes.len() < end + 4 + length {
                Framed { body: Ok(None), rest: bytes }
            } else {
                Framed {
                    body: Ok(Some(bytes.subrange(end + 4, end + 4 + length))),
                    rest: bytes.skip(end + 4 + length),
                }
            },
        },
    }
}

/// What decoding the first frame of a buffer gives. A frame whose body is not
/// JSON is taken out all the same.
pub open spec fn decoded(bytes: Seq<u8>) -> Decoded {
    let first = framed(bytes);
    Decoded {
        message: match first.body {
            Err(error) => Err(error),
            Ok(None) => Ok(None),
            Ok(Some(body)) => match json::parsed_bytes(body) {
                Ok(tree) => Ok(Some(tree)),
                Err(message) => Err(bad_data(message)),
            },
        },
        rest: first.rest,
    }
}

/// The header of a frame with a body of this length.
pub open spec fn header_text(length: nat) -> Seq<char> {
    "Content-Length: "@ + text::decimal(length) + "\r\n\r\n"@
}

/// A frame: a header that says how long the body is, then the body.
pub open spec fn frame(body: Seq<u8>) -> Seq<u8> {
    vstd::utf8::encode_utf8(header_text(body.len())) + body
}

/// Frames a message: its compact JSON text, below a `Content-Length` header.
pub fn encode(message: &Json) -> (bytes: Vec<u8>)
    ensures
        bytes@ == frame(vstd::utf8::encode_utf8(json::json_text(message@))),
        json::shallow(message@, json::MAX_DEPTH as nat) ==> decoded(bytes@) == (Decoded {
            message: Ok(Some(message@)),
            rest: Seq::empty(),
        }),
        json::shallow(message@, json::MAX_DEPTH as nat) ==> forall|rest: Seq<u8>|
            #[trigger] decoded(bytes@ + rest) == (Decoded { message: Ok(Some(message@)), rest }),
{
    let mut body = to_bytes(message);
    let length: usize = body.len();
    let ghost sent = body@;
    let mut header = "Content-Length: ".to_string();
    header.append(decimal_text(length).as_str());
    header.append("\r\n\r\n");
    let mut bytes = vstd::slice::slice_to_vec(header.as_str().as_bytes());
    bytes.append(&mut body);
    proof {
        assert(bytes@ == frame(sent));
        if json::shallow(message@, json::MAX_DEPTH as nat) {
            assert forall|rest: Seq<u8>| #[trigger]
                decoded(bytes@ + rest) == (Decoded { message: Ok(Some(message@)), rest }) by {
                law_frame_round_trip(sent, message@, rest);
            }
            assert(bytes@ + Seq::<u8>::empty() == bytes@);
            assert(decoded(bytes@ + Seq::<u8>::empty()).rest == Seq::<u8>::empty());
        }
    }
    bytes
}

/// `std::str::from_utf8`: the text of bytes that are UTF-8, and a message, which
/// depends on the bytes alone, for those that are not.
#[verifier::external_body]
fn utf8_text(bytes: &[u8]) -> (text: Result<String, String>)
    ensures
        match text {
            Ok(text) => vstd::utf8::valid_utf8(bytes@) && text@ == vstd::utf8::decode_utf8(bytes@),
            Err(message) => !vstd::utf8::valid_utf8(bytes@) && message@ == utf8_message(bytes@),
        },
{
    match std::str::from_utf8(bytes) {
        Ok(text) => Ok(text.to_string()),
        Err(error) => Err(error.to_string()),
    }
}

/// Finds the mark that ends the header.
fn find_header_end(bytes: &Vec<u8>) -> (end: Option<usize>)
    ensures
        match end {
            Some(end) => header_len(bytes@) == Some(end as int) && end + 4 <= bytes@.len(),
            None => header_len(bytes@) is None,
        },
{
    let mut i: usize = 0;
    let count: usize = bytes.len();
    while i < count && count - i >= 4
        invariant
            count == bytes@.len(),
            i <= count,
            forall|j: int| 0 <= j < i ==> !#[trigger] mark_at(bytes@, j),
        decreases count - i,
    {
        if bytes[i] == 13 && bytes[i + 1] == 10 && bytes[i + 2] == 13 && bytes[i + 3] == 10 {
            proof {
                lemma_header_len(bytes@, i as int);
            }
            return Some(i);
        }
        i += 1;
    }
    proof {
        lemma_header_len(bytes@, i as int);
    }
    None
}

/// Reads the length that a header announces.
fn read_content_length(header: &str) -> (length: Result<usize, LspError>)
    ensures
        match length {
            Ok(n) => content_length(header@) == Ok::<nat, Seq<char>>(n as nat),
            Err(e) => e.kind == LspErrorKind::InvalidData && content_length(header@) == Err::<
                nat,
                Seq<char>,
            >(e.message@),
        },
{
    let chars = chars_of(header);
    let all = split_lines(chars.as_slice());
    let ghost wanted = text::lines(header@);
    assert(wanted.skip(0) == wanted);
    for i in 0..all.len()
        invariant
            text::rows(all@) == wanted,
            wanted == text::lines(header@),
            first_with_prefix(wanted, "Content-Length:"@) == first_with_prefix(
                wanted.skip(i as int),
                "Content-Length:"@,
            ),
    {
        let line = &all[i];
        proof {
            assert(text::rows(all@)[i as int] == line@);
            assert(wanted.skip(i as int)[0] == line@);
            assert(wanted.skip(i as int).skip(1) == wanted.skip(i + 1));
            reveal_strlit("Content-Length:");
        }
        if has_prefix(line.as_slice(), "Content-Length:") {
            let value = sub_chars(line.as_slice(), 15, line.len());
            assert(value@ == line@.skip(15));
            let core = trimmed(value.as_slice());
            return match parse_number(core.as_slice()) {
                Ok(n) => Ok(n),
                Err(NumberError::Empty) => Err(
                    lsp_error(LspErrorKind::InvalidData, "cannot parse integer from empty string"),
                ),
                Err(NumberError::InvalidDigit) => Err(
                    lsp_error(LspErrorKind::InvalidData, "invalid digit found in string"),
                ),
                Err(NumberError::TooLarge) => Err(
                    lsp_error(LspErrorKind::InvalidData, "number too large to fit in target type"),
                ),
            };
        }
    }
    Err(lsp_error(LspErrorKind::InvalidData, "missing Content-Length"))
}

/// What a decoder returns, as a value.
pub open spec fn decoded_view(message: Result<Option<Json>, LspError>) -> Result<
    Option<JsonTree>,
    LspErrorView,
> {
    match message {
        Ok(Some(json)) => Ok(Some(json@)),
        Ok(None) => Ok(None),
        Err(error) => Err(error@),
    }
}

/// What taking a frame out of a buffer returns, as a value.
pub open spec fn framed_view(body: Result<Option<Vec<u8>>, LspError>) -> Result<
    Option<Seq<u8>>,
    LspErrorView,
> {
    match body {
        Ok(Some(body)) => Ok(Some(body@)),
        Ok(None) => Ok(None),
        Err(error) => Err(error@),
    }
}

/// Takes the first frame out of a buffer; `None` where the buffer does not hold
/// a whole frame yet.
pub fn take_frame(buffer: &mut Vec<u8>) -> (body: Result<Option<Vec<u8>>, LspError>)
    ensures
        framed_view(body) == framed(old(buffer)@).body,
        final(buffer)@ == framed(old(buffer)@).rest,
{
    let count: usize = buffer.len();
    let end: usize = match find_header_end(buffer) {
        Some(end) => end,
        None => {
            return Ok(None);
        },
    };
    let header_bytes = vstd::slice::slice_subrange(buffer.as_slice(), 0, end);
    assert(header_bytes@ == buffer@.take(end as int));
    let header = match utf8_text(header_bytes) {
        Ok(header) => header,
        Err(message) => {
            return Err(LspError { kind: LspErrorKind::InvalidData, message });
        },
    };
    let length: usize = match read_content_length(header.as_str()) {
        Ok(length) => length,
        Err(error) => {
            return Err(error);
        },
    };
    let start: usize = end + 4;
    if count - start < length {
        return Ok(None);
    }
    let ghost before = buffer@;
    let rest = buffer.split_off(start + length);
    let body = buffer.split_off(start);
    assert(body@ == before.subrange(end + 4, end + 4 + length));
    assert(rest@ == before.skip(end + 4 + length));
    *buffer = rest;
    Ok(Some(body))
}

/// Takes the first frame out of a buffer and reads its message; `None` where
/// the buffer does not hold a whole frame yet.
pub fn decode(buffer: &mut Vec<u8>) -> (message: Result<Option<Json>, LspError>)
    ensures
        decoded_view(message) == decoded(old(buffer)@).message,
        final(buffer)@ == decoded(old(buffer)@).rest,
{
    match take_frame(buffer) {
        Err(error) => Err(error),
        Ok(None) => Ok(None),
        Ok(Some(body)) => match parse_bytes(body.as_slice()) {
            Ok(json) => Ok(Some(json)),
            Err(message) => Err(LspError { kind: LspErrorKind::InvalidData, message }),
        },
    }
}

/// The header of a frame without its mark, and where the mark stands.
proof fn lemma_header(length: usize) -> (line: Seq<char>)
    ensures
        line == "Content-Length: "@ + text::decimal(length as nat),
        vstd::utf8::is_ascii_chars(header_text(length as nat)),
        vstd::utf8::encode_utf8(header_text(length as nat)).len() == line.len() + 4,
        mark_at(vstd::utf8::encode_utf8(header_text(length as nat)), line.len() as int),
        forall|j: int|
            0 <= j < line.len() ==> vstd::utf8::encode_utf8(header_text(length as nat))[j] != 13,
        announced(vstd::utf8::encode_utf8(header_text(length as nat)).take(line.len() as int))
            == Ok::<nat, Seq<char>>(length as nat),
{
    let number = text::decimal(length as nat);
    let line = "Content-Length: "@ + number;
    let header = header_text(length as nat);
    let bytes = vstd::utf8::encode_utf8(header);
    reveal_strlit("Content-Length: ");
    reveal_strlit("Content-Length:");
    reveal_strlit("\r\n\r\n");
    text::lemma_decimal_value(length as nat);
    text::law_number_round_trip(length);
    assert forall|i: int| 0 <= i < number.len() implies '0' <= #[trigger] number[i] <= '9' by {
        assert(text::is_digit(number[i]));
    }
    assert(header == line + "\r\n\r\n"@);
    assert forall|i: int| 0 <= i < line.len() implies line[i] != '\r' && line[i] != '\n' && '\0'
        <= #[trigger] line[i] <= '\u{7f}' by {
        if i >= 16 {
            assert(line[i] == number[i - 16]);
        }
    }
    assert forall|i: int| 0 <= i < header.len() implies '\0' <= #[trigger] header[i]
        <= '\u{7f}' by {
        if i < line.len() {
            assert(header[i] == line[i]);
        } else {
            assert(header[i] == "\r\n\r\n"@[i - line.len()]);
        }
    }
    vstd::utf8::is_ascii_chars_encode_utf8(header);
    assert forall|j: int| 0 <= j < line.len() implies bytes[j] != 13 by {
        assert(header[j] == line[j]);
        assert(bytes[j] == header[j] as u8);
        assert(line[j] != '\r');
    }
    let n = line.len() as int;
    assert(header[n] == '\r' && header[n + 1] == '\n' && header[n + 2] == '\r' && header[n + 3]
        == '\n');
    assert(bytes[n] == 13 && bytes[n + 1] == 10 && bytes[n + 2] == 13 && bytes[n + 3] == 10);
    // The line by itself is text again.
    assert(vstd::utf8::is_ascii_chars(line));
    vstd::utf8::is_ascii_chars_encode_utf8(line);
    assert(bytes.take(n) == vstd::utf8::encode_utf8(line)) by {
        assert forall|i: int| 0 <= i < n implies bytes[i] == vstd::utf8::encode_utf8(line)[i] by {
            assert(header[i] == line[i]);
        }
    }
    vstd::utf8::encode_utf8_valid_utf8(line);
    vstd::utf8::encode_utf8_decode_utf8(line);
    // It is the only line, and its value is the number.
    text::lemma_first_of(line, '\n', n);
    assert(line.take(n) == line);
    assert(line.skip(n).len() == 0);
    assert(text::pieces(line.skip(n)) == Seq::<Seq<char>>::empty());
    assert(text::pieces(line) == seq![line]);
    assert(text::line_body(line) == line);
    assert(text::lines(line) == seq![line]);
    assert(line.take(15) == "Content-Length:"@);
    let value = line.skip(15);
    assert(value[0] == ' ');
    assert(value.skip(1) == number);
    reveal_with_fuel(text::trim_start, 3);
    assert(text::trim_start(value) == number) by {
        assert(text::is_digit(number[0]));
    }
    assert(text::trim_end(number) == number) by {
        assert(text::is_digit(number.last()));
    }
    line
}

/// A frame is read back as the message that its body holds, and what follows
/// it stays in the buffer.
pub proof fn law_frame_round_trip(body: Seq<u8>, tree: JsonTree, rest: Seq<u8>)
    requires
        body.len() <= usize::MAX,
        json::bytes_read_as(body, tree),
    ensures
        decoded(frame(body) + rest).message == Ok::<Option<JsonTree>, LspErrorView>(Some(tree)),
        decoded(frame(body) + rest).rest == rest,
{
    let line = lemma_header(body.len() as usize);
    let head = vstd::utf8::encode_utf8(header_text(body.len()));
    let bytes = frame(body) + rest;
    let n = line.len() as int;
    assert forall|j: int| 0 <= j < n implies !#[trigger] mark_at(bytes, j) by {
        assert(bytes[j] == head[j]);
    }
    assert(bytes[n] == head[n] && bytes[n + 1] == head[n + 1] && bytes[n + 2] == head[n + 2]
        && bytes[n + 3] == head[n + 3]);
    lemma_header_len(bytes, n);
    assert(bytes.take(n) == head.take(n));
    assert(bytes.subrange(n + 4, n + 4 + body.len()) == body);
    assert(bytes.skip(n + 4 + body.len()) == rest);
}

/// A frame that has not come in whole yields nothing yet and stays in the
/// buffer.
pub proof fn law_partial_frame_waits(body: Seq<u8>, count: int)
    requires
        body.len() <= usize::MAX,
        0 <= count < frame(body).len(),
    ensures
        decoded(frame(body).take(count)).message == Ok::<Option<JsonTree>, LspErrorView>(None),
        decoded(frame(body).take(count)).rest == frame(body).take(count),
{
    let line = lemma_header(body.len() as usize);
    let head = vstd::utf8::encode_utf8(header_text(body.len()));
    let bytes = frame(body).take(count);
    let n = line.len() as int;
    assert forall|j: int| 0 <= j < n && j < count implies !#[trigger] mark_at(bytes, j) by {
        assert(bytes[j] == head[j]);
    }
    if count < n + 4 {
        if count < n {
            lemma_header_len(bytes, count);
        } else {
            lemma_header_len(bytes, n);
        }
    } else {
        assert(bytes[n] == head[n] && bytes[n + 1] == head[n + 1] && bytes[n + 2] == head[n + 2]
            && bytes[n + 3] == head[n + 3]);
        lemma_header_len(bytes, n);
        assert(bytes.take(n) == head.take(n));
    }
}

/// What reading a buffer to its last whole frame gives.
pub struct Drained {
    pub messages: Seq<JsonTree>,
    pub error: Option<LspErrorView>,
    pub rest: Seq<u8>,
}

/// What reading a buffer to its last whole frame gives: its messages in order,
/// up to the first error.
pub open spec fn drained(bytes: Seq<u8>) -> Drained
    decreases bytes.len(),
{
    let first = decoded(bytes);
    match first.message {
        Err(error) => Drained { messages: Seq::empty(), error: Some(error), rest: first.rest },
        Ok(None) => Drained { messages: Seq::empty(), error: None, rest: first.rest },
        Ok(Some(message)) => if first.rest.len() < bytes.len() {
            let others = drained(first.rest);
            Drained {
                messages: seq![message] + others.messages,
                error: others.error,
                rest: others.rest,
            }
        } else {
            Drained { messages: Seq::empty(), error: None, rest: first.rest }
        },
    }
}

/// An optional error, as a value.
pub open spec fn error_view(error: Option<LspError>) -> Option<LspErrorView> {
    match error {
        Some(error) => Some(error@),
        None => None,
    }
}

/// A frame that is read leaves the buffer shorter.
pub proof fn lemma_decoded_shrinks(bytes: Seq<u8>)
    ensures
        decoded(bytes).message matches Ok(Some(_)) ==> decoded(bytes).rest.len() < bytes.len(),
{
    lemma_header_len_bounds(bytes);
}

proof fn lemma_header_len_bounds(bytes: Seq<u8>)
    ensures
        header_len(bytes) matches Some(end) ==> 0 <= end && end + 4 <= bytes.len(),
    decreases bytes.len(),
{
    if bytes.len() >= 4 && bytes.take(4) != header_mark() {
        lemma_header_len_bounds(bytes.skip(1));
    }
}

/// Takes every whole frame out of a buffer: the messages, and the error that
/// ended the reading, if one did.
pub fn drain_frames(buffer: &mut Vec<u8>) -> (read: (Vec<Json>, Option<LspError>))
    ensures
        json::trees(read.0@) == drained(old(buffer)@).messages,
        error_view(read.1) == drained(old(buffer)@).error,
        final(buffer)@ == drained(old(buffer)@).rest,
{
    let mut messages: Vec<Json> = Vec::new();
    let ghost whole = drained(buffer@);
    assert(json::trees(messages@) + whole.messages == whole.messages);
    loop
        invariant
            whole.messages == json::trees(messages@) + drained(buffer@).messages,
            whole.error == drained(buffer@).error,
            whole.rest == drained(buffer@).rest,
            whole == drained(old(buffer)@),
        decreases buffer@.len(),
    {
        let ghost before = buffer@;
        proof {
            lemma_decoded_shrinks(before);
        }
        match decode(buffer) {
            Ok(Some(message)) => {
                let ghost done = json::trees(messages@);
                messages.push(message);
                proof {
                    assert(json::trees(messages@) == done.push(message@));
                    assert(done + (seq![message@] + drained(buffer@).messages) == done.push(
                        message@,
                    ) + drained(buffer@).messages);
                }
            },
            Ok(None) => {
                assert(json::trees(messages@) + Seq::<JsonTree>::empty() == json::trees(messages@));
                return (messages, None);
            },
            Err(error) => {
                assert(json::trees(messages@) + Seq::<JsonTree>::empty() == json::trees(messages@));
                return (messages, Some(error));
            },
        }
    }
}

/// What is wrong with a response to the request with this id, if anything: the
/// version or the id, an error in place of a result, or no result.
pub open spec fn response_fault(response: JsonTree, id: u64) -> Option<LspErrorView> {
    if json::str_of(json::item(response, "jsonrpc"@)) != Some("2.0"@)
        || json::u64_of(json::item(response, "id"@)) != Some(
        id,
    ) {
        Some(bad_data("unexpected JSON-RPC response id or version"@))
    } else if json::member(response, "error"@) is Some {
        Some(
            LspErrorView {
                kind: LspErrorKind::Other,
                message: json::json_text(json::member(response, "error"@)->0),
            },
        )
    } else if json::member(response, "result"@) is None {
        Some(bad_data("JSON-RPC response missing result"@))
    } else {
        None
    }
}

/// Checks a response to the request with this id.
pub fn response_error(response: &Json, expected_id: u64) -> (checked: Result<(), LspError>)
    ensures
        match checked {
            Ok(_) => response_fault(response@, expected_id) is None,
            Err(e) => response_fault(response@, expected_id) == Some(e@),
        },
{
    let version_fits = match response.str_at("jsonrpc") {
        Some(version) => same_text(version, "2.0"),
        None => false,
    };
    let id_fits = match response.u64_at("id") {
        Some(id) => id == expected_id,
        None => false,
    };
    if !version_fits || !id_fits {
        return Err(
            lsp_error(LspErrorKind::InvalidData, "unexpected JSON-RPC response id or version"),
        );
    }
    if let Some(error) = response.get("error") {
        return Err(LspError { kind: LspErrorKind::Other, message: to_text(error) });
    }
    match response.get("result") {
        Some(_) => Ok(()),
        None => Err(lsp_error(LspErrorKind::InvalidData, "JSON-RPC response missing result")),
    }
}

/// What a request gets: the result of a response without fault.
pub fn response_result(response: &Json, expected_id: u64) -> (result: Result<Json, LspError>)
    ensures
        match result {
            Ok(json) => response_fault(response@, expected_id) is None && json@ == json::item(
                response@,
                "result"@,
            ),
            Err(e) => response_fault(response@, expected_id) == Some(e@),
        },
{
    match response_error(response, expected_id) {
        Err(e) => Err(e),
        Ok(_) => match response.get("result") {
            Some(json) => Ok(json.clone()),
            None => Ok(Json::Null),
        },
    }
}

/// The numeric id that a message carries, if it carries one.
pub open spec fn carried_id(message: JsonTree) -> Option<u64> {
    json::u64_of(json::item(message, "id"@))
}

/// The id under which a request is sent.
pub fn request_id(message: &Json) -> (id: Result<u64, LspError>)
    ensures
        match id {
            Ok(id) => carried_id(message@) == Some(id),
            Err(e) => carried_id(message@) is None && e@ == (LspErrorView {
                kind: LspErrorKind::InvalidInput,
                message: "LSP request missing numeric id"@,
            }),
        },
{
    match message.u64_at("id") {
        Some(id) => Ok(id),
        None => Err(lsp_error(LspErrorKind::InvalidInput, "LSP request missing numeric id")),
    }
}

/// Whether a message is a notification: it has no id of any kind.
pub open spec fn is_notification(message: JsonTree) -> bool {
    json::member(message, "id"@) is None
}

/// Refuses to send as a notification what has an id.
pub fn check_notification(message: &Json) -> (checked: Result<(), LspError>)
    ensures
        match checked {
            Ok(_) => is_notification(message@),
            Err(e) => !is_notification(message@) && e@ == (LspErrorView {
                kind: LspErrorKind::InvalidInput,
                message: "LSP notification must not have an id"@,
            }),
        },
{
    match message.get("id") {
        Some(_) => Err(
            lsp_error(LspErrorKind::InvalidInput, "LSP notification must not have an id"),
        ),
        None => Ok(()),
    }
}

/// What waiting for a message brought.
pub enum Incoming {
    Message(Json),
    Failed(LspError),
    TimedOut,
    Disconnected,
}

/// What to do with it.
pub enum Received {
    /// It answers the request.
    Answer(Json),
    /// It does not concern the request: wait on.
    Ignore,
    /// The request failed.
    Fail(LspError),
    /// The request failed, and the server is to be terminated.
    Terminate(LspError),
}

/// Whether a message answers the request with an id.
pub open spec fn answers(message: JsonTree, id: u64) -> bool {
    carried_id(message) == Some(id)
}

/// Decides what to do with what waiting for the answer to a request brought:
/// only the message with its id answers it, and a server that is silent or gone
/// is terminated.
pub fn receive(incoming: Incoming, expected_id: u64) -> (received: Received)
    ensures
        match incoming {
            Incoming::Message(message) => if answers(message@, expected_id) {
                received == Received::Answer(message)
            } else {
                received is Ignore
            },
            Incoming::Failed(error) => received == Received::Fail(error),
            Incoming::TimedOut => received matches Received::Terminate(error) && error@ == (
            LspErrorView { kind: LspErrorKind::TimedOut, message: "LSP response timed out"@ }),
            Incoming::Disconnected => received matches Received::Terminate(error) && error@ == (
            LspErrorView {
                kind: LspErrorKind::UnexpectedEof,
                message: "LSP reader disconnected"@,
            }),
        },
{
    match incoming {
        Incoming::Message(message) => {
            let id = message.u64_at("id");
            let answers = match id {
                Some(id) => id == expected_id,
                None => false,
            };
            if answers {
                Received::Answer(message)
            } else {
                Received::Ignore
            }
        },
        Incoming::Failed(error) => Received::Fail(error),
        Incoming::TimedOut => Received::Terminate(
            lsp_error(LspErrorKind::TimedOut, "LSP response timed out"),
        ),
        Incoming::Disconnected => Received::Terminate(
            lsp_error(LspErrorKind::UnexpectedEof, "LSP reader disconnected"),
        ),
    }
}

/// Whether waiting for the server to exit goes on; where not, how it ended.
pub enum Exit {
    Wait,
    Done(Result<(), LspError>),
}

/// What waiting for the server to exit comes to, or `None` while it goes on.
pub open spec fn exit_of(exited: Option<bool>, expired: bool) -> Option<
    Result<(), LspErrorView>,
> {
    match exited {
        Some(true) => Some(Ok(())),
        Some(false) => Some(
            Err(
                LspErrorView {
                    kind: LspErrorKind::Other,
                    message: "rust-analyzer exited unsuccessfully"@,
                },
            ),
        ),
        None => if expired {
            Some(
                Err(
                    LspErrorView {
                        kind: LspErrorKind::TimedOut,
                        message: "LSP shutdown timed out"@,
                    },
                ),
            )
        } else {
            None
        },
    }
}

/// Decides whether waiting for the server to exit goes on. `exited` says whether
/// it exited with success, once it did.
pub fn await_exit(exited: Option<bool>, expired: bool) -> (exit: Exit)
    ensures
        match exit {
            Exit::Wait => exit_of(exited, expired) is None,
            Exit::Done(Ok(_)) => exit_of(exited, expired) == Some(Ok::<(), LspErrorView>(())),
            Exit::Done(Err(error)) => exit_of(exited, expired) == Some(
                Err::<(), LspErrorView>(error@),
            ),
        },
{
    match exited {
        Some(true) => Exit::Done(Ok(())),
        Some(false) => Exit::Done(
            Err(lsp_error(LspErrorKind::Other, "rust-analyzer exited unsuccessfully")),
        ),
        None => if expired {
            Exit::Done(Err(lsp_error(LspErrorKind::TimedOut, "LSP shutdown timed out")))
        } else {
            Exit::Wait
        },
    }
}

/// The ids of the requests of a session: each is one more than the last.
pub struct RequestIds {
    next: u64,
}

impl View for RequestIds {
    type V = u64;

    closed spec fn view(&self) -> u64 {
        self.next
    }
}

impl RequestIds {
    /// The first id is one.
    pub fn new() -> (ids: RequestIds)
        ensures
            ids@ == 1,
    {
        RequestIds { next: 1 }
    }

    /// The next id, which no earlier request of the session had.
    pub fn next_id(&mut self) -> (id: u64)
        requires
            old(self)@ < u64::MAX,
        ensures
            id == old(self)@,
            final(self)@ == old(self)@ + 1,
    {
        let id: u64 = self.next;
        self.next = id + 1;
        id
    }
}

/// Every request carries its id, and is answered by the response with that id.
pub proof fn law_requests_carry_their_id(id: u64, method: Seq<char>, params: JsonTree)
    ensures
        json::u64_of(json::item(request_message(id as int, method, params), "id"@)) == Some(id),
        json::u64_of(json::item(shutdown_message(id as int), "id"@)) == Some(id),
        json::str_of(json::item(request_message(id as int, method, params), "method"@))
            == Some(method),
        json::item(request_message(id as int, method, params), "params"@) == params,
{
    reveal_strlit("jsonrpc");
    reveal_strlit("id");
    reveal_strlit("method");
    reveal_strlit("params");
    assert("jsonrpc"@.len() != "method"@.len());
    assert("method"@[0] != "params"@[0]);
    let request = seq![
        ("jsonrpc"@, JsonTree::Str("2.0"@)),
        ("id"@, JsonTree::Integer(id as int)),
        ("method"@, JsonTree::Str(method)),
        ("params"@, params),
    ];
    json::lemma_member(request, 1);
    json::lemma_member(request, 2);
    json::lemma_member(request, 3);
    json::lemma_member(
        seq![
            ("jsonrpc"@, JsonTree::Str("2.0"@)),
            ("id"@, JsonTree::Integer(id as int)),
            ("method"@, JsonTree::Str("shutdown"@)),
        ],
        1,
    );
}

/// No notification carries an id.
pub proof fn law_notifications_have_no_id(method: Seq<char>, params: JsonTree)
    ensures
        json::member(notification_message(method, params), "id"@) is None,
{
    reveal_strlit("jsonrpc");
    reveal_strlit("id");
    reveal_strlit("method");
    reveal_strlit("params");
    let fields = seq![
        ("jsonrpc"@, JsonTree::Str("2.0"@)),
        ("method"@, JsonTree::Str(method)),
        ("params"@, params),
    ];
    assert forall|j: int| 0 <= j < fields.len() implies (#[trigger] fields[j]).0 != "id"@ by {
        assert(fields[j].0.len() > 2);
    }
    json::lemma_no_member(fields, "id"@);
}

/// A response is accepted by at most one id: a late answer to another request
/// is refused.
pub proof fn law_late_responses_are_refused(response: JsonTree, id: u64, other: u64)
    requires
        response_fault(response, id) is None,
        other != id,
    ensures
        response_fault(response, other) == Some(
            bad_data("unexpected JSON-RPC response id or version"@),
        ),
{
}

/// The frames of two messages in one buffer are read as the two messages.
pub proof fn law_frames_follow_each_other(
    first: Seq<u8>,
    second: Seq<u8>,
    first_tree: JsonTree,
    second_tree: JsonTree,
)
    requires
        first.len() <= usize::MAX,
        second.len() <= usize::MAX,
        json::bytes_read_as(first, first_tree),
        json::bytes_read_as(second, second_tree),
    ensures
        drained(frame(first) + frame(second)).messages == seq![first_tree, second_tree],
        drained(frame(first) + frame(second)).error is None,
        drained(frame(first) + frame(second)).rest.len() == 0,
{
    reveal_with_fuel(drained, 4);
    law_frame_round_trip(first, first_tree, frame(second));
    lemma_decoded_shrinks(frame(first) + frame(second));
    assert(frame(second) + Seq::<u8>::empty() == frame(second));
    law_frame_round_trip(second, second_tree, Seq::empty());
    lemma_decoded_shrinks(frame(second));
    assert(header_len(Seq::<u8>::empty()) is None);
    assert(seq![first_tree] + (seq![second_tree] + Seq::<JsonTree>::empty()) == seq![
        first_tree,
        second_tree,
    ]);
}

} // verus!
