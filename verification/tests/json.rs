use fmtguard::json::{
    json_array, json_object, json_str, object_text, parse, parse_bytes, push_field, to_bytes,
    to_text, Json,
};

#[test]
fn text_is_read() {
    let value = parse(r#" {"b": [null, true, 18446744073709551615, -7, 2.5], "a": "é\n"} "#).unwrap();
    assert_eq!(value.str_at("a"), Some("é\n"));
    let items = value.get("b").unwrap().as_array().unwrap();
    assert_eq!(items[0], Json::Null);
    assert_eq!(items[1].as_bool(), Some(true));
    assert_eq!(items[2].as_u64(), Some(u64::MAX));
    assert_eq!(items[3], Json::Int(-7));
    assert_eq!(items[3].as_u64(), None);
    match &items[4] {
        Json::Real(found) => assert_eq!(found.number().as_f64(), Some(2.5)),
        other => panic!("{other:?}"),
    }
    assert_eq!(items[4].as_u64(), None);
    assert!(value.get("c").is_none());
    assert!(items[0].get("a").is_none());
    assert_eq!(value.clone(), value);
}

#[test]
fn errors_are_those_of_the_reader() {
    let wanted = serde_json::from_str::<serde_json::Value>("{").unwrap_err().to_string();
    assert_eq!(parse("{").unwrap_err(), wanted);
    let wanted = serde_json::from_slice::<serde_json::Value>(b"\xff").unwrap_err().to_string();
    assert_eq!(parse_bytes(b"\xff").unwrap_err(), wanted);
    assert!(parse("").is_err());
}

#[test]
fn text_is_compact_and_sorted() {
    let value = json_object(vec![
        ("b".to_string(), json_array(vec![Json::UInt(1), Json::Bool(false)])),
        ("a".to_string(), json_str("\"\n\u{1}")),
    ]);
    let text = r#"{"a":"\"\n\u0001","b":[1,false]}"#;
    assert_eq!(to_text(&value), text);
    assert_eq!(to_bytes(&value), text.as_bytes());
    assert_eq!(parse(text).unwrap().str_at("a"), Some("\"\n\u{1}"));
}

#[test]
fn the_later_of_two_members_counts() {
    let value = json_object(vec![
        ("a".to_string(), Json::UInt(1)),
        ("a".to_string(), Json::UInt(2)),
    ]);
    assert_eq!(value.u64_at("a"), Some(2));
    assert_eq!(to_text(&value), r#"{"a":2}"#);
}

#[test]
fn members_keep_their_order_in_a_line() {
    let mut fields = vec![];
    push_field(&mut fields, "t", json_str("x"));
    push_field(&mut fields, "a", Json::Int(-1));
    push_field(&mut fields, "b", parse("0.1").unwrap());
    assert_eq!(object_text(&fields), r#"{"t":"x","a":-1,"b":0.1}"#);
    assert_eq!(object_text(&vec![]), "{}");
}

#[test]
fn the_reader_stops_at_its_depth() {
    let nested = |levels: usize| {
        let mut value = Json::Null;
        for _ in 0..levels {
            value = json_array(vec![value]);
        }
        value
    };
    let deep = nested(127);
    assert_eq!(parse(&to_text(&deep)).unwrap(), deep);
    assert_eq!(parse_bytes(&to_bytes(&deep)).unwrap(), deep);
    assert!(parse(&to_text(&nested(128))).is_err());
}

#[test]
fn numbers_come_back_as_they_were() {
    for text in ["0.1", "-0.0", "1e300", "5e-324", "1.7976931348623157e308", "123456789.125"] {
        let value = parse(text).unwrap();
        assert_eq!(parse(&to_text(&value)).unwrap(), value);
    }
    for value in [Json::UInt(0), Json::UInt(u64::MAX), Json::Int(-1), Json::Int(i64::MIN)] {
        assert_eq!(parse(&to_text(&value)).unwrap(), value);
    }
}
