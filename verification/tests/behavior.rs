use repairjson::parser::{repair, DepthLimitExceeded, RepairError, MAX_DEPTH};

fn fix(input: &str) -> String {
    repair(input).unwrap()
}

#[test]
fn empty_or_valueless_input_becomes_null() {
    assert_eq!(fix(""), "null");
    assert_eq!(fix("   \n\t "), "null");
    assert_eq!(fix("::: ,,, ]"), "null");
}

#[test]
fn readme_examples() {
    assert_eq!(
        fix("{user: 'alice', active: True, tags: ['x', 'y',],}"),
        r#"{"user":"alice","active":true,"tags":["x","y"]}"#
    );
    assert_eq!(fix("{name: 'Ada', ready: True}"), r#"{"name":"Ada","ready":true}"#);
    assert_eq!(fix("{items: [1 2 3,]}"), r#"{"items":[1,2,3]}"#);
    assert_eq!(fix("{count 2}"), r#"{"count":2}"#);
    assert_eq!(fix("{missing:, next: 2}"), r#"{"missing":null,"next":2}"#);
    assert_eq!(fix("{items: [1, 2"), r#"{"items":[1,2]}"#);
    assert_eq!(
        fix("{value: +.5, other: 01, exp: 1e+}"),
        r#"{"value":0.5,"other":1,"exp":1e+0}"#
    );
    assert_eq!(fix("Here is the result: {ok: True}"), r#"{"ok":true}"#);
}

#[test]
fn behavior_doc_examples() {
    assert_eq!(fix("```json\n{a:1}\n```"), r#"{"a":1}"#);
    assert_eq!(fix("\"a\\qb\""), r#""aqb""#);
    assert_eq!(fix("\"\\u12\""), r#""\u1200""#);
    assert_eq!(fix("\"a\\"), r#""a\\""#);
    assert_eq!(fix("[{a: [1, 2}, {b: 3}]"), r#"[{"a":[1,2]},{"b":3}]"#);
    assert_eq!(fix("{a:, b: 2}"), r#"{"a":null,"b":2}"#);
    assert_eq!(fix("[NaN, Infinity]"), r#"["NaN","Infinity"]"#);
    assert_eq!(fix("[-, ., 1e-, 1e2e3]"), r#"[0,0.0,1e-0,"1e2e3"]"#);
    assert_eq!(fix("[True, False, None, none, Null, null]"), "[true,false,null,null,null,null]");
}

#[test]
fn byte_order_mark_is_removed() {
    assert_eq!(fix("\u{feff}{a:1}"), r#"{"a":1}"#);
    assert_eq!(fix("\u{feff}"), "null");
}

#[test]
fn comments_are_skipped_outside_strings() {
    assert_eq!(fix("{a: 1, // note\n b: 2}"), r#"{"a":1,"b":2}"#);
    assert_eq!(fix("/* lead */ [1]"), "[1]");
    assert_eq!(fix("[1, /* never closed"), "[1]");
    assert_eq!(fix("['// kept', \"/* kept */\"]"), r#"["// kept","/* kept */"]"#);
}

#[test]
fn strings_escape_control_bytes() {
    assert_eq!(fix("\"a\u{1}b\""), "\"a\\u0001b\"");
    assert_eq!(fix("\"a\r\nb\""), "\"a\\r\\nb\"");
    assert_eq!(fix("'say \"hi\"'"), r#""say \"hi\"""#);
    assert_eq!(fix("\"keep \\/ \\b \\f \\n \\r \\t \\\\ \\\"\""), "\"keep \\/ \\b \\f \\n \\r \\t \\\\ \\\"\"");
    assert_eq!(fix("\"\\u00e9\\uABCD\""), "\"\\u00e9\\uABCD\"");
}

#[test]
fn unicode_text_is_copied() {
    assert_eq!(fix("{ключ: значение}"), r#"{"ключ":"значение"}"#);
    assert_eq!(fix("{'a': 'é'}"), r#"{"a":"é"}"#);
    assert_eq!(fix("'\\é'"), r#""é""#);
    assert_eq!(fix("{emoji: '😀'}"), r#"{"emoji":"😀"}"#);
}

#[test]
fn duplicate_keys_and_trailing_text() {
    assert_eq!(fix("{a:1,a:2}"), r#"{"a":1,"a":2}"#);
    assert_eq!(fix("[1] [2]"), "[1]");
    assert_eq!(fix("{a:1} trailing words"), r#"{"a":1}"#);
    assert_eq!(fix("'{not the payload}'"), r#""{not the payload}""#);
}

#[test]
fn nesting_limit_counts_objects_and_arrays() {
    let objects = "{a:".repeat(MAX_DEPTH);
    assert!(repair(&objects).is_ok());
    assert_eq!(repair(&(objects.clone() + "[")), Err(RepairError::Depth(DepthLimitExceeded)));
    let mixed = "[{a:".repeat(MAX_DEPTH / 2);
    assert!(repair(&mixed).is_ok());
    assert_eq!(repair(&(mixed + "[")), Err(RepairError::Depth(DepthLimitExceeded)));
}

#[test]
fn depth_error_message() {
    assert_eq!(
        DepthLimitExceeded.message(),
        "JSON nesting exceeds the limit of 128 containers"
    );
}

#[test]
fn repairing_repaired_text_changes_nothing() {
    for input in [
        "{user: 'alice', active: True, tags: ['x', 'y',],}",
        "[1{a:2}]",
        "{'a': .e, b: 'é\\u12', c: [None, 1E5, -0]}",
        "\"a\\qb\\\\\"",
        "say 'hi' {a: \"{x}\"}",
        "",
    ] {
        let once = fix(input);
        assert_eq!(fix(&once), once);
    }
}

#[test]
fn valid_json_keeps_its_text_without_whitespace() {
    assert_eq!(
        fix("{ \"a\" : [ 1 , 2.5 , -3e+2 ] , \"b\" : { } , \"c\" : \"x y\" }"),
        r#"{"a":[1,2.5,-3e+2],"b":{},"c":"x y"}"#
    );
    assert_eq!(fix(" [ true , false , null ] "), "[true,false,null]");
    assert_eq!(fix("\"\\u0041\""), "\"\\u0041\"");
    assert_eq!(fix("1E5"), "1e5");
}

#[test]
fn valid_json_at_and_past_the_nesting_limit() {
    let at_limit = "[".repeat(MAX_DEPTH) + &"]".repeat(MAX_DEPTH);
    assert_eq!(fix(&at_limit), at_limit);
    let past_limit = "[".repeat(MAX_DEPTH + 1) + &"]".repeat(MAX_DEPTH + 1);
    assert_eq!(repair(&past_limit), Err(RepairError::Depth(DepthLimitExceeded)));
    assert_eq!(fix("\t{\r\n\"k\":\n[\"v\", {\"n\" : -0.5E-3}]\r\n}\n"), r#"{"k":["v",{"n":-0.5e-3}]}"#);
}

#[test]
fn unescaped_quotes_in_an_object_value_are_refused() {
    assert_eq!(
        repair(r#"{"command": "say "hello" now"}"#),
        Err(RepairError::AmbiguousQuote)
    );
    assert_eq!(repair("{a: 'don't'}"), Err(RepairError::AmbiguousQuote));
    assert_eq!(repair(r#"[{"k": [{"v": "a"b"}]}]"#), Err(RepairError::AmbiguousQuote));
    // A word glued to a value without a quote after it, a quote after
    // whitespace, or inner quotes outside an object are not ambiguous.
    assert_eq!(fix(r#"{a: "x"b: 1}"#), r#"{"a":"x","b":1}"#);
    assert_eq!(fix(r#"{"a": "x" "b": 2}"#), r#"{"a":"x","b":2}"#);
    assert_eq!(fix(r#"["say "hello" now"]"#), r#"["say ","hello"," now"]"#);
    assert_eq!(fix(r#"{"a": "say \"hello\" now"}"#), r#"{"a":"say \"hello\" now"}"#);
}

#[test]
fn error_messages() {
    assert_eq!(
        RepairError::Depth(DepthLimitExceeded).message(),
        "JSON nesting exceeds the limit of 128 containers"
    );
    assert_eq!(
        RepairError::AmbiguousQuote.message(),
        "ambiguous unescaped quote in an object value; escape the inner quotes"
    );
}

#[test]
fn text_after_an_object_or_array_is_ignored() {
    for input in ["{a: 1, b: [2, 'x']}", "[1 2 {c: null}]", "  {\"k\": \"v\"}  "] {
        let once = fix(input);
        for tail in ["", " trailing words", "{z: 9}", "```", "\"unclosed", "]}"] {
            assert_eq!(fix(&(once.clone() + tail)), once);
        }
    }
}
