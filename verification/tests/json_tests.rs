use agent_hub::json::{from_text, to_text, chars_to_string, string_to_chars, json_clone, obj_get,
    obj_put, obj_remove, str_eq, Json};

fn text(s: &str) -> Vec<char> {
    s.chars().collect()
}

fn render(v: &Json) -> String {
    to_text(v).iter().collect()
}

fn reparse(v: &Json) -> Json {
    from_text(&to_text(v)).expect("canonical text must parse")
}

#[test]
fn scalars_round_trip() {
    for v in [
        Json::Null,
        Json::Bool(true),
        Json::Bool(false),
        Json::Num(0),
        Json::Num(7),
        Json::Num(-7),
        Json::Num(i64::MAX),
        Json::Num(i64::MIN),
    ] {
        let back = reparse(&v);
        assert_eq!(back, v);
    }
}

#[test]
fn scalar_texts_are_exact() {
    assert_eq!(render(&Json::Null), "null");
    assert_eq!(render(&Json::Bool(true)), "true");
    assert_eq!(render(&Json::Bool(false)), "false");
    assert_eq!(render(&Json::Num(0)), "0");
    assert_eq!(render(&Json::Num(-12)), "-12");
    assert_eq!(render(&Json::Num(i64::MIN)), "-9223372036854775808");
    assert_eq!(render(&Json::Num(i64::MAX)), "9223372036854775807");
}

#[test]
fn strings_round_trip() {
    for s in [
        "",
        "hello",
        "with \"quotes\" and \\ backslash",
        "control:\n\t\r\u{1}\u{1f}",
        "caf\u{e9} \u{65e5}\u{672c}\u{8a9e} \u{1f680}",
        "/slashes/ are plain",
    ] {
        let v = Json::Str(s.to_string());
        assert_eq!(reparse(&v), v);
    }
}

#[test]
fn string_texts_are_exact() {
    assert_eq!(render(&Json::Str("hi".to_string())), "\"hi\"");
    assert_eq!(render(&Json::Str("a\"b".to_string())), "\"a\\\"b\"");
    assert_eq!(render(&Json::Str("a\\b".to_string())), "\"a\\\\b\"");
    assert_eq!(render(&Json::Str("\n".to_string())), "\"\\u000a\"");
    assert_eq!(render(&Json::Str("\u{e9}".to_string())), "\"\u{e9}\"");
}

#[test]
fn composites_round_trip() {
    let v = Json::Obj(vec![
        ("a".to_string(), Json::Num(1)),
        ("b".to_string(), Json::Arr(vec![Json::Bool(true), Json::Null, Json::Num(-3)])),
        ("c".to_string(), Json::Str("x\"y".to_string())),
        (
            "d".to_string(),
            Json::Obj(vec![("inner".to_string(), Json::Arr(vec![]))]),
        ),
        ("e".to_string(), Json::Obj(vec![])),
    ]);
    assert_eq!(reparse(&v), v);
    assert_eq!(
        render(&v),
        "{\"a\":1,\"b\":[true,null,-3],\"c\":\"x\\\"y\",\"d\":{\"inner\":[]},\"e\":{}}"
    );
}

#[test]
fn parser_accepts_common_escapes() {
    let got = from_text(&text("\"a\\n\\t\\r\\\\\\\"\\/b\\u0001\"")).expect("escapes parse");
    assert_eq!(got, Json::Str("a\n\t\r\\\"/b\u{1}".to_string()));
}

#[test]
fn parser_rejects_malformed_text() {
    for bad in [
        "",
        "{",
        "[1,",
        "tru",
        "nul",
        "falsey",
        "\"unterminated",
        "\"bad \\q escape\"",
        "\"bad \\u00ZZ\"",
        "nullx",
        "[1,2,]",
        "{\"a\":}",
        "{\"a\" 1}",
        "{'a':1}",
        "-",
        "--1",
        "9223372036854775808",
        "-9223372036854775809",
        "[1 ,2]",
    ] {
        assert!(from_text(&text(bad)).is_none(), "accepted: {bad}");
    }
}

#[test]
fn parser_reads_boundary_numbers() {
    assert_eq!(from_text(&text("9223372036854775807")), Some(Json::Num(i64::MAX)));
    assert_eq!(from_text(&text("-9223372036854775808")), Some(Json::Num(i64::MIN)));
    assert_eq!(from_text(&text("007")), Some(Json::Num(7)));
}

#[test]
fn object_member_access_is_first_match() {
    let mut fields = vec![
        ("k".to_string(), Json::Num(1)),
        ("other".to_string(), Json::Null),
        ("k".to_string(), Json::Num(2)),
    ];
    assert_eq!(obj_get(&fields, "k"), Some(&Json::Num(1)));
    assert_eq!(obj_get(&fields, "missing"), None);
    obj_put(&mut fields, "k".to_string(), Json::Num(9));
    assert_eq!(fields[0].1, Json::Num(9));
    assert_eq!(fields.len(), 3);
    obj_put(&mut fields, "new".to_string(), Json::Bool(true));
    assert_eq!(fields.len(), 4);
    assert_eq!(obj_get(&fields, "new"), Some(&Json::Bool(true)));
    obj_remove(&mut fields, "k");
    assert_eq!(obj_get(&fields, "k"), Some(&Json::Num(2)));
    obj_remove(&mut fields, "nothing");
    assert_eq!(fields.len(), 3);
}

#[test]
fn clone_and_string_helpers_agree() {
    let v = Json::Obj(vec![("list".to_string(), Json::Arr(vec![Json::Str("\u{1f680}".to_string())]))]);
    assert_eq!(json_clone(&v), v);
    let cs = string_to_chars("caf\u{e9}\u{1f680}");
    assert_eq!(chars_to_string(&cs), "caf\u{e9}\u{1f680}");
    assert!(str_eq("same", "same"));
    assert!(!str_eq("same", "sam\u{e9}"));
    assert!(!str_eq("short", "shorter"));
}
