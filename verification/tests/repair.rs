use repairjson::parser::{repair as repair_result, DepthLimitExceeded, RepairError, MAX_DEPTH};

fn repair(input: &str) -> String {
    repair_result(input).unwrap()
}

#[test]
fn bounds_nesting_without_truncating_input() {
    let allowed = "[".repeat(MAX_DEPTH);
    assert!(repair_result(&allowed).is_ok());
    assert_eq!(repair_result(&(allowed + "[")), Err(RepairError::Depth(DepthLimitExceeded)));
}

#[test]
fn preserves_missing_values_and_container_boundaries() {
    assert_eq!(repair("{a:,b:2}"), r#"{"a":null,"b":2}"#);
    assert_eq!(repair("[{a:1],2]"), r#"[{"a":1}]"#);
    assert_eq!(repair("[{a:1}, {b:}]"), r#"[{"a":1},{"b":null}]"#);
    assert_eq!(repair("{a 1,b 2}"), r#"{"a":1,"b":2}"#);
}

#[test]
fn repairs_target_cases() {
    assert_eq!(repair("{'a': 'b'}"), "{\"a\":\"b\"}");
    assert_eq!(
        repair("{'a': True, 'b': False, 'c': None}"),
        "{\"a\":true,\"b\":false,\"c\":null}"
    );
    assert_eq!(repair("{a: 1, b: 2}"), "{\"a\":1,\"b\":2}");
    assert_eq!(repair("{\"a\": 1,}"), "{\"a\":1}");
    assert_eq!(repair("{\"a\": 1 \"b\": 2}"), "{\"a\":1,\"b\":2}");
    assert_eq!(repair("{\"a\": [1, 2, 3}"), "{\"a\":[1,2,3]}");
    assert_eq!(repair("```json\n{\"a\": 1}\n```"), "{\"a\":1}");
    assert_eq!(repair("'tab\\\tvalue'"), "\"tab\\tvalue\"");
}

#[test]
fn repairs_nested_values_without_commas() {
    assert_eq!(repair("[1{a:2}]"), "[1,{\"a\":2}]");
    assert_eq!(repair("{a:1{b:2}}"), "{\"a\":1,\"b\":2}");
}

#[test]
fn repairs_malformed_number_prefixes_and_exponents() {
    assert_eq!(repair("{'a': .5}"), "{\"a\":0.5}");
    assert_eq!(repair("{'a': +.5}"), "{\"a\":0.5}");
    assert_eq!(repair("{'a': -.5}"), "{\"a\":-0.5}");
    assert_eq!(repair("{'a': +5}"), "{\"a\":5}");
    assert_eq!(repair("{'a': -5}"), "{\"a\":-5}");
    assert_eq!(repair("{'a': -1.25}"), "{\"a\":-1.25}");
    assert_eq!(repair("{'a': -1e3}"), "{\"a\":-1e3}");
    assert_eq!(repair("{'a': 1e}"), "{\"a\":1e0}");
    assert_eq!(repair("{'a': 1e+}"), "{\"a\":1e+0}");
    assert_eq!(repair("{'a': .e}"), "{\"a\":0.0e0}");
    assert_eq!(repair("{'a': 1.e2}"), "{\"a\":1.0e2}");
    assert_eq!(repair("{'a': 01}"), "{\"a\":1}");
    assert_eq!(repair("{'a': 00.5}"), "{\"a\":0.5}");
    assert_eq!(repair("{'a': 1..2}"), "{\"a\":\"1..2\"}");
}

#[test]
fn prefers_structural_json_after_chatty_preamble() {
    assert_eq!(repair("result = {a:1}"), "{\"a\":1}");
    assert_eq!(
        repair("Here is the JSON:\n```json\n{a:1}\n```"),
        "{\"a\":1}"
    );
    assert_eq!(repair("### JSON\n{a:1}"), "{\"a\":1}");
    assert_eq!(repair("- JSON follows\n{a:1}"), "{\"a\":1}");
    assert_eq!(repair("1. JSON follows\n[1,2]"), "[1,2]");
    assert_eq!(repair("Items follow: [1,2,3]"), "[1,2,3]");
    assert_eq!(repair("I'm sorry, here is JSON: {a:1}"), "{\"a\":1}");
    assert_eq!(repair("Note: 'quoted preamble' {a:1}"), "{\"a\":1}");
    assert_eq!(repair("Note: '{not the payload}' {a:1}"), "{\"a\":1}");
}
