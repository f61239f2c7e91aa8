use fmtguard::json::{json_array, json_object, parse, to_text, Json};
use fmtguard::lsp::{
    apply_text_edits, await_exit, check_notification, decode, did_open, drain_frames, encode, exit,
    initialize, initialized, line_range, range_formatting, receive, request_id, response_error,
    response_result, shutdown, take_frame, Exit, Incoming, LspErrorKind, Received, RequestIds,
};

fn json(text: &str) -> Json {
    parse(text).unwrap()
}

fn at<'a>(value: &'a Json, path: &[&str]) -> &'a Json {
    let mut found = value;
    for key in path {
        found = found.get(key).unwrap();
    }
    found
}

#[test]
fn round_trip_handles_fragmented_frame() {
    let expected = json(r#"{"id": 1, "method": "initialize"}"#);
    let frame = encode(&expected);
    let mut buffer = frame[..10].to_vec();
    assert!(decode(&mut buffer).unwrap().is_none());
    buffer.extend_from_slice(&frame[10..]);
    assert_eq!(decode(&mut buffer).unwrap(), Some(expected));
    assert!(buffer.is_empty());
}

#[test]
fn decode_keeps_following_frame() {
    let first = encode(&json(r#"{"id": 1}"#));
    let second = encode(&json(r#"{"id": 2}"#));
    let mut buffer = [first, second].concat();
    assert_eq!(decode(&mut buffer).unwrap(), Some(json(r#"{"id": 1}"#)));
    assert_eq!(decode(&mut buffer).unwrap(), Some(json(r#"{"id": 2}"#)));
}

#[test]
fn decode_rejects_missing_content_length() {
    let mut buffer = b"X-Test: 1\r\n\r\n{}".to_vec();
    assert!(decode(&mut buffer).is_err());
}

#[test]
fn request_builders_use_lsp_shapes() {
    let init = initialize(1, "file:///repo");
    assert_eq!(at(&init, &["method"]).as_str(), Some("initialize"));
    assert_eq!(at(&init, &["params", "rootUri"]).as_str(), Some("file:///repo"));

    let open = did_open("file:///repo/src/lib.rs", "rust", "fn main() {}");
    assert_eq!(at(&open, &["params", "textDocument", "version"]).as_u64(), Some(1));

    let range = range_formatting(2, "file:///repo/src/lib.rs", 3, 0, 8, 12);
    assert_eq!(at(&range, &["params", "range", "end", "line"]).as_u64(), Some(8));

    let shutdown = shutdown(3);
    assert_eq!(at(&shutdown, &["method"]).as_str(), Some("shutdown"));
    assert_eq!(at(&initialized(), &["method"]).as_str(), Some("initialized"));
}

#[test]
fn response_validation_rejects_late_and_error_responses() {
    let ok = json(r#"{"jsonrpc":"2.0","id":7,"result":{}}"#);
    assert!(response_error(&ok, 7).is_ok());
    assert!(response_error(&ok, 8).is_err());

    let error = json(r#"{"jsonrpc":"2.0","id":7,"error":{"code":-1}}"#);
    assert!(response_error(&error, 7).is_err());
}

#[test]
fn line_range_uses_zero_based_utf16_columns() {
    let text = "alpha\n中文😀\nomega\n";
    assert_eq!(line_range(text, 2, 2).unwrap(), (1, 0, 1, 4));
    assert!(line_range(text, 0, 1).is_err());
    assert!(line_range(text, 1, 4).is_err());
}

#[test]
fn text_edits_apply_in_reverse_order_with_utf16_positions() {
    let text = "alpha\n中文😀\nomega\n";
    let edits = vec![
        json(
            r#"{"range":{"start":{"line":1,"character":0},"end":{"line":1,"character":4}},"newText":"rust"}"#,
        ),
        json(
            r#"{"range":{"start":{"line":2,"character":0},"end":{"line":2,"character":5}},"newText":"END"}"#,
        ),
    ];
    assert_eq!(apply_text_edits(text, &edits).unwrap(), "alpha\nrust\nEND\n");
}

#[test]
fn text_edits_reject_overlap_and_split_surrogate() {
    let overlap = vec![
        json(
            r#"{"range":{"start":{"line":0,"character":0},"end":{"line":0,"character":2}},"newText":"x"}"#,
        ),
        json(
            r#"{"range":{"start":{"line":0,"character":1},"end":{"line":0,"character":3}},"newText":"y"}"#,
        ),
    ];
    assert!(apply_text_edits("abcd", &overlap).is_err());
    let split = json(
        r#"{"range":{"start":{"line":0,"character":6},"end":{"line":0,"character":6}},"newText":"x"}"#,
    );
    assert!(apply_text_edits("😀", &[split]).is_err());
}

fn edit(line: u64, from: u64, to: u64, text: &str) -> Json {
    let position = |character: u64| {
        json_object(vec![
            ("line".to_string(), Json::UInt(line)),
            ("character".to_string(), Json::UInt(character)),
        ])
    };
    json_object(vec![
        (
            "range".to_string(),
            json_object(vec![
                ("start".to_string(), position(from)),
                ("end".to_string(), position(to)),
            ]),
        ),
        ("newText".to_string(), Json::Str(text.to_string())),
    ])
}

#[test]
fn edits_in_any_order_touch_nothing_else() {
    let edits = [edit(0, 4, 5, "E"), edit(0, 0, 1, "AA"), edit(0, 2, 2, "-")];
    assert_eq!(apply_text_edits("abcdef", &edits).unwrap(), "AAb-cdEf");
    assert_eq!(apply_text_edits("abc", &[]).unwrap(), "abc");
}

#[test]
fn the_order_of_edits_does_not_matter() {
    let edits = || [edit(0, 4, 5, "E"), edit(0, 0, 1, "AA"), edit(0, 0, 0, "-")];
    let wanted = apply_text_edits("abcdef", &edits()).unwrap();
    for (i, j) in [(0, 1), (0, 2), (1, 2)] {
        let mut swapped = edits();
        swapped.swap(i, j);
        assert_eq!(apply_text_edits("abcdef", &swapped).unwrap(), wanted);
    }
    let clash = [edit(0, 1, 3, ""), edit(0, 0, 2, "")];
    assert!(apply_text_edits("abcd", &clash).is_err());
}

#[test]
fn inserts_at_one_place_come_out_last_first() {
    let edits = [edit(0, 1, 1, "x"), edit(0, 1, 1, "y")];
    assert_eq!(apply_text_edits("ab", &edits).unwrap(), "ayxb");
}

#[test]
fn a_position_behind_the_last_line_feed_is_the_end() {
    assert_eq!(apply_text_edits("a\n", &[edit(1, 0, 0, "b")]).unwrap(), "a\nb");
    let error = apply_text_edits("a", &[edit(1, 0, 0, "b")]).unwrap_err();
    assert_eq!(error.message, "LSP position line out of bounds");
}

#[test]
fn each_fault_of_an_edit_has_its_message() {
    let message = |text: &str, edit: &str| {
        let error = apply_text_edits(text, &[json(edit)]).unwrap_err();
        assert_eq!(error.kind, LspErrorKind::InvalidData);
        error.message
    };
    assert_eq!(message("a", "{}"), "TextEdit missing range");
    assert_eq!(message("a", r#"{"range":{}}"#), "LSP position missing line");
    assert_eq!(
        message("a", r#"{"range":{"start":{"line":0}}}"#),
        "LSP position missing character"
    );
    assert_eq!(
        message(
            "ab",
            r#"{"range":{"start":{"line":0,"character":2},"end":{"line":0,"character":1}}}"#
        ),
        "TextEdit range is reversed"
    );
    assert_eq!(
        message(
            "ab",
            r#"{"range":{"start":{"line":0,"character":1},"end":{"line":0,"character":2}}}"#
        ),
        "TextEdit missing newText"
    );
    assert_eq!(
        message("😀", r#"{"range":{"start":{"line":0,"character":1}}}"#),
        "LSP position splits UTF-16 character"
    );
    assert_eq!(
        message("😀", r#"{"range":{"start":{"line":0,"character":3}}}"#),
        "LSP position column out of bounds"
    );
    let error = apply_text_edits("abcd", &[edit(0, 0, 2, ""), edit(0, 1, 3, "")]).unwrap_err();
    assert_eq!(error.message, "overlapping TextEdits");
}

#[test]
fn line_range_errors_say_why() {
    assert_eq!(line_range("a\n", 0, 1).unwrap_err().message, "invalid line range");
    assert_eq!(line_range("a\n", 2, 1).unwrap_err().message, "invalid line range");
    let error = line_range("a\n", 1, 2).unwrap_err();
    assert_eq!(error.message, "line range exceeds document");
    assert_eq!(error.kind, LspErrorKind::InvalidInput);
}

#[test]
fn frames_are_exact() {
    let message = json(r#"{"b": [1, -2, 0.5], "a": "é"}"#);
    assert_eq!(
        encode(&message),
        "Content-Length: 25\r\n\r\n{\"a\":\"é\",\"b\":[1,-2,0.5]}".as_bytes()
    );
}

#[test]
fn every_prefix_of_a_frame_waits() {
    let frame = encode(&json(r#"{"id": 12}"#));
    for count in 0..frame.len() {
        let mut buffer = frame[..count].to_vec();
        assert!(decode(&mut buffer).unwrap().is_none());
        assert_eq!(buffer, &frame[..count]);
    }
}

#[test]
fn broken_frames_say_why() {
    let message = |bytes: &[u8]| {
        let mut buffer = bytes.to_vec();
        let error = decode(&mut buffer).unwrap_err();
        assert_eq!(error.kind, LspErrorKind::InvalidData);
        (error.message, buffer)
    };
    assert_eq!(message(b"X: 1\r\n\r\n{}").0, "missing Content-Length");
    assert_eq!(
        message(b"Content-Length:\r\n\r\n").0,
        "".parse::<usize>().unwrap_err().to_string()
    );
    assert_eq!(
        message(b"Content-Length: x\r\n\r\n").0,
        "x".parse::<usize>().unwrap_err().to_string()
    );
    assert_eq!(
        message(b"Content-Length: 99999999999999999999999\r\n\r\n").0,
        "99999999999999999999999".parse::<usize>().unwrap_err().to_string()
    );
    let invalid = [0xff, b'\r', b'\n', b'\r', b'\n'];
    assert_eq!(message(&invalid).0, std::str::from_utf8(&[0xff]).unwrap_err().to_string());
    // What is not JSON is taken out of the buffer all the same.
    let (_, rest) = message(b"Content-Length: 2\r\n\r\n}{rest");
    assert_eq!(rest, b"rest");
}

#[test]
fn a_body_that_cannot_be_there_is_waited_for() {
    let mut buffer = format!("Content-Length: {}\r\n\r\n{{}}", usize::MAX).into_bytes();
    assert!(decode(&mut buffer).unwrap().is_none());
}

#[test]
fn a_frame_is_taken_out_unread() {
    let mut buffer = b"Content-Type: x\r\nContent-Length: +3 \r\n\r\nabcdef".to_vec();
    assert_eq!(take_frame(&mut buffer).unwrap(), Some(b"abc".to_vec()));
    assert_eq!(buffer, b"def");
    assert_eq!(take_frame(&mut buffer).unwrap(), None);
}

#[test]
fn draining_reads_every_whole_frame() {
    let mut buffer = encode(&json("1"));
    buffer.extend_from_slice(&encode(&json("[2]")));
    buffer.extend_from_slice(b"Content-Le");
    let (messages, error) = drain_frames(&mut buffer);
    assert_eq!(messages, [json("1"), json("[2]")]);
    assert!(error.is_none());
    assert_eq!(buffer, b"Content-Le");

    let mut buffer = encode(&json("1"));
    buffer.extend_from_slice(b"X\r\n\r\n");
    let (messages, error) = drain_frames(&mut buffer);
    assert_eq!(messages, [json("1")]);
    assert_eq!(error.unwrap().message, "missing Content-Length");
}

#[test]
fn response_faults() {
    let fault = |text: &str| {
        let error = response_error(&json(text), 7).unwrap_err();
        (error.kind, error.message)
    };
    let stray = "unexpected JSON-RPC response id or version".to_string();
    assert_eq!(
        fault(r#"{"id":7,"result":1}"#),
        (LspErrorKind::InvalidData, stray.clone())
    );
    assert_eq!(
        fault(r#"{"jsonrpc":"2.0","id":"7","result":1}"#),
        (LspErrorKind::InvalidData, stray)
    );
    assert_eq!(
        fault(r#"{"jsonrpc":"2.0","id":7,"error":{"message":"no","code":-1}}"#),
        (LspErrorKind::Other, r#"{"code":-1,"message":"no"}"#.to_string())
    );
    assert_eq!(
        fault(r#"{"jsonrpc":"2.0","id":7}"#),
        (LspErrorKind::InvalidData, "JSON-RPC response missing result".to_string())
    );
    let ok = json(r#"{"jsonrpc":"2.0","id":7,"result":[1]}"#);
    assert_eq!(response_result(&ok, 7).unwrap(), json("[1]"));
}

#[test]
fn requests_and_notifications_are_told_apart() {
    assert_eq!(request_id(&shutdown(5)).unwrap(), 5);
    let error = request_id(&initialized()).unwrap_err();
    assert_eq!(error.kind, LspErrorKind::InvalidInput);
    assert_eq!(error.message, "LSP request missing numeric id");
    assert!(check_notification(&exit()).is_ok());
    let error = check_notification(&shutdown(5)).unwrap_err();
    assert_eq!(error.message, "LSP notification must not have an id");
}

#[test]
fn only_the_answer_is_received() {
    let answer = json(r#"{"id":3}"#);
    assert!(matches!(
        receive(Incoming::Message(answer.clone()), 3),
        Received::Answer(message) if message == answer
    ));
    assert!(matches!(receive(Incoming::Message(answer), 4), Received::Ignore));
    assert!(matches!(
        receive(Incoming::TimedOut, 3),
        Received::Terminate(error) if error.kind == LspErrorKind::TimedOut
    ));
    assert!(matches!(
        receive(Incoming::Disconnected, 3),
        Received::Terminate(error) if error.kind == LspErrorKind::UnexpectedEof
    ));
    let failed = response_error(&json("{}"), 1).unwrap_err();
    assert!(matches!(receive(Incoming::Failed(failed), 3), Received::Fail(_)));
}

#[test]
fn the_server_is_awaited() {
    assert!(matches!(await_exit(None, false), Exit::Wait));
    assert!(matches!(await_exit(Some(true), true), Exit::Done(Ok(()))));
    assert!(matches!(
        await_exit(Some(false), false),
        Exit::Done(Err(error)) if error.message == "rust-analyzer exited unsuccessfully"
    ));
    assert!(matches!(
        await_exit(None, true),
        Exit::Done(Err(error)) if error.message == "LSP shutdown timed out"
    ));
}

#[test]
fn ids_count_from_one() {
    let mut ids = RequestIds::new();
    assert_eq!((ids.next_id(), ids.next_id()), (1, 2));
}

#[test]
fn messages_are_exact() {
    assert_eq!(
        to_text(&initialize(1, "file:///r")),
        r#"{"id":1,"jsonrpc":"2.0","method":"initialize","params":{"capabilities":{},"initializationOptions":{"rustfmt":{"rangeFormatting":{"enable":true}}},"processId":null,"rootUri":"file:///r","settings":{"rustfmt":{"rangeFormatting":{"enable":true}}}}}"#
    );
    assert_eq!(
        to_text(&did_open("u", "rust", "t")),
        r#"{"jsonrpc":"2.0","method":"textDocument/didOpen","params":{"textDocument":{"languageId":"rust","text":"t","uri":"u","version":1}}}"#
    );
    assert_eq!(
        to_text(&range_formatting(2, "u", 3, 0, 8, 12)),
        r#"{"id":2,"jsonrpc":"2.0","method":"textDocument/rangeFormatting","params":{"options":{"insertSpaces":true,"tabSize":4},"range":{"end":{"character":12,"line":8},"start":{"character":0,"line":3}},"textDocument":{"uri":"u"}}}"#
    );
    assert_eq!(to_text(&exit()), r#"{"jsonrpc":"2.0","method":"exit"}"#);
    assert_eq!(to_text(&json_array(vec![])), "[]");
}
