use ai_streaming_core::json::{as_i64, get, jint, num_as_i64_exec};
use ai_streaming_core::partial_json::{
    canonical, js_num, js_obj, js_str, number_retry, parse_streaming_json, parse_with_repair_value, repair_retry,
    repair_string, unclosed_string_retry, value_to_jsval,
    JsVal,
};

fn from_json(text: &str) -> JsVal {
    let v: serde_json::Value = serde_json::from_str(text).unwrap();
    value_to_jsval(&v)
}

fn streaming(text: &str) -> String {
    canonical(&parse_streaming_json(text))
}

// ---- repair ----

#[test]
fn repair_escapes_raw_newline_in_string() {
    assert_eq!(repair_string("{\"a\":\"x\ny\"}"), "{\"a\":\"x\\ny\"}");
}

#[test]
fn repair_escapes_other_controls_as_unicode() {
    assert_eq!(repair_string("\"a\u{1}b\u{1f}\""), "\"a\\u0001b\\u001f\"");
    assert_eq!(repair_string("\"\u{8}\u{c}\r\t\""), "\"\\b\\f\\r\\t\"");
}

#[test]
fn repair_doubles_invalid_backslash() {
    assert_eq!(repair_string("\"C:\\dir\""), "\"C:\\\\dir\"");
}

#[test]
fn repair_keeps_valid_escapes() {
    let s = "\"a\\n\\\"\\\\\\/\\u00e9\\t\"";
    assert_eq!(repair_string(s), s);
}

#[test]
fn repair_short_unicode_escape_is_kept() {
    assert_eq!(repair_string("\"\\u12\""), "\"\\u12\"");
}

#[test]
fn repair_doubles_trailing_backslash() {
    assert_eq!(repair_string("\"abc\\"), "\"abc\\\\");
}

#[test]
fn repair_leaves_text_outside_strings() {
    assert_eq!(repair_string("{\n\t\"k\" : 1\n}"), "{\n\t\"k\" : 1\n}");
    assert_eq!(repair_string("\\x \u{1}"), "\\x \u{1}");
}

#[test]
fn repair_plain_text_is_unchanged() {
    let s = "{\"emoji\":\"\u{1F600}\",\"n\":[1,2,3]}";
    assert_eq!(repair_string(s), s);
}

#[test]
fn repair_twice_is_repair_once() {
    let samples = [
        "{\"a\":\"x\ny\\q\u{1}\\u12\\",
        "\"\\u12\\\"",
        "\"\\u\u{1}234\"",
        "{\"p\":\"C:\\dir\\n\"}",
        "\\ outside \u{2} \"in\u{1f}side\\",
    ];
    for s in samples {
        let once = repair_string(s);
        assert_eq!(repair_string(&once), once);
    }
}

// ---- parse with repair ----

#[test]
fn parse_with_repair_valid_json() {
    let v = parse_with_repair_value("{\"a\":[1,true,null]}").unwrap();
    assert_eq!(canonical(&v), "{\"a\":[1,true,null]}");
}

#[test]
fn parse_with_repair_fixes_invalid_escape() {
    let v = parse_with_repair_value("{\"path\":\"C:\\dir\"}").unwrap();
    assert_eq!(canonical(&v), "{\"path\":\"C:\\\\dir\"}");
}

#[test]
fn parse_with_repair_fails_when_repair_changes_nothing() {
    assert!(parse_with_repair_value("{\"a\":").is_err());
    assert!(parse_with_repair_value("").is_err());
}

// ---- streaming parse ----

#[test]
fn streaming_blank_is_empty_object() {
    assert_eq!(streaming(""), "{}");
    assert_eq!(streaming("  \n\t "), "{}");
}

#[test]
fn streaming_complete_document() {
    assert_eq!(streaming("{\"b\": [1, 2.5, \"x\"], \"a\": {}}"), "{\"a\":{},\"b\":[1,2.5,\"x\"]}");
}

#[test]
fn streaming_complete_null_is_not_coalesced() {
    assert_eq!(streaming("null"), "null");
}

#[test]
fn streaming_partial_null_is_coalesced() {
    assert_eq!(streaming("nul"), "{}");
}

#[test]
fn streaming_partial_literal_in_array() {
    assert_eq!(streaming("{\"a\":1,\"b\":[tru"), "{\"a\":1,\"b\":[true]}");
}

#[test]
fn streaming_partial_string_value() {
    assert_eq!(streaming("{\"a\": \"hel"), "{\"a\":\"hel\"}");
}

#[test]
fn streaming_key_without_value_is_dropped() {
    assert_eq!(streaming("{\"a\":"), "{}");
    assert_eq!(streaming("{\"a\":1,\"b\""), "{\"a\":1}");
}

#[test]
fn streaming_partial_number_exponent_cut() {
    assert_eq!(streaming("{\"x\": 12.5e"), "{\"x\":12.5}");
}

#[test]
fn streaming_lone_minus_in_array_is_dropped() {
    assert_eq!(streaming("[1, 2, -"), "[1,2]");
}

#[test]
fn streaming_infinities_and_nan_serialize_as_null() {
    assert_eq!(streaming("[Infinity, -Infinity, NaN"), "[null,null,null]");
}

#[test]
fn streaming_duplicate_keys_last_wins() {
    assert_eq!(streaming("{\"a\":1,\"a\":2,\"b\""), "{\"a\":2}");
}

#[test]
fn streaming_unfinished_string_with_control_char() {
    // A raw tab inside an unfinished string: neither JSON reading works, and
    // the lenient reading drops the value it cannot parse.
    assert_eq!(streaming("{\"t\": \"a\tb"), "{}");
}

#[test]
fn streaming_repaired_complete_document() {
    assert_eq!(streaming("{\"t\": \"a\tb\"}"), "{\"t\":\"a\\tb\"}");
}

#[test]
fn streaming_unquoted_key_gives_empty_object() {
    assert_eq!(streaming("{a:1}"), "{}");
}

#[test]
fn streaming_escaped_quote_and_unfinished_second_string() {
    assert_eq!(streaming("[\"a\\\"b\", \"c"), "[\"a\\\"b\",\"c\"]");
}

#[test]
fn streaming_pending_escape_is_dropped() {
    assert_eq!(streaming("{\"k\": \"ab\\"), "{\"k\":\"ab\"}");
}

#[test]
fn streaming_top_level_fragments() {
    assert_eq!(streaming("-"), "{}");
    assert_eq!(streaming("12"), "12");
    assert_eq!(streaming("1e"), "1");
    assert_eq!(streaming("\"abc"), "\"abc\"");
    assert_eq!(streaming("fals"), "false");
}

#[test]
fn streaming_nested_unfinished() {
    assert_eq!(streaming("{\"a\":[1,2"), "{\"a\":[1,2]}");
    assert_eq!(streaming("[{\"a\":1},{\"b\":"), "[{\"a\":1},{}]");
}

#[test]
fn streaming_escaped_quote_in_unfinished_string() {
    assert_eq!(streaming("{\"a\": \"x\\\"y"), "{\"a\":\"x\\\"y\"}");
}

#[test]
fn streaming_invalid_escape_in_unfinished_string_cut_at_backslash() {
    assert_eq!(streaming("{\"a\": \"x\\q"), "{\"a\":\"x\"}");
}

#[test]
fn streaming_last_backslash_before_the_string() {
    // The fallback cuts at the last backslash of the whole text, which here
    // lies before the unfinished string; that reading fails too.
    assert_eq!(streaming("[\"a\\\\\", \"c\td"), "[\"a\\\\\"]");
}

#[test]
fn streaming_numbers_cut_at_last_e() {
    assert_eq!(streaming("12abc"), "{}");
    assert_eq!(streaming("1.5e+"), "1.5");
    assert_eq!(streaming("[1.5e+"), "[1.5]");
    assert_eq!(streaming("[1, 2e"), "[1,2]");
    // The last `e` of the whole text can lie in a key.
    assert_eq!(streaming("{\"key\": 1x"), "{}");
}

// ---- canonical ----

#[test]
fn canonical_sorts_and_collapses_keys() {
    let v = js_obj(vec![("b", js_num(1)), ("a", js_num(2)), ("b", js_num(3))]);
    assert_eq!(canonical(&v), "{\"a\":2,\"b\":3}");
}

#[test]
fn canonical_orders_keys_by_code_point() {
    let v = js_obj(vec![("é", js_num(1)), ("ab", js_num(2)), ("a", js_num(3)), ("B", js_num(4))]);
    assert_eq!(canonical(&v), "{\"B\":4,\"a\":3,\"ab\":2,\"é\":1}");
}

#[test]
fn canonical_key_order_does_not_matter() {
    let x = js_obj(vec![("x", js_str("1")), ("y", js_num(2)), ("z", JsVal::Bool(false))]);
    let y = js_obj(vec![("z", JsVal::Bool(false)), ("x", js_str("1")), ("y", js_num(2))]);
    assert_eq!(canonical(&x), canonical(&y));
}

#[test]
fn canonical_escapes_strings() {
    let v = js_str("q\"b\\s\u{1}\u{8}\u{c}\n\r\té");
    assert_eq!(canonical(&v), "\"q\\\"b\\\\s\\u0001\\b\\f\\n\\r\\té\"");
}

#[test]
fn canonical_non_finite_and_literals() {
    let v = JsVal::Arr(vec![JsVal::Nan, JsVal::Inf, JsVal::NegInf, JsVal::Null, JsVal::Bool(true), JsVal::Bool(false)]);
    assert_eq!(canonical(&v), "[null,null,null,null,true,false]");
}

#[test]
fn canonical_integers() {
    assert_eq!(canonical(&js_num(0)), "0");
    assert_eq!(canonical(&js_num(-42)), "-42");
    assert_eq!(canonical(&js_num(9007199254740992)), "9007199254740992");
}

#[test]
fn canonical_floats_from_json() {
    let v = from_json("[1.0, -0.0, 1e2, 0.1, -2.5, 1e300]");
    let expected = format!("[1,0,100,0.1,-2.5,{}]", 1e300f64);
    assert_eq!(canonical(&v), expected);
}

#[test]
fn canonical_large_integers_go_through_the_nearest_double() {
    let v = from_json("[12345678901234567890, -9007199254740993, 9007199254740993]");
    let expected = format!(
        "[{},{},{}]",
        12345678901234567890u64 as f64,
        -9007199254740993i64 as f64,
        9007199254740993u64 as f64
    );
    assert_eq!(canonical(&v), expected);
    assert_eq!(canonical(&from_json("[-9007199254740993]")), "[-9007199254740992]");
}

#[test]
fn canonical_nested() {
    let v = from_json("{\"z\":[{\"b\":1,\"a\":[]}],\"a\":\"\"}");
    assert_eq!(canonical(&v), "{\"a\":\"\",\"z\":[{\"a\":[],\"b\":1}]}");
}

// ---- numbers read from values ----

#[test]
fn jint_reads_integers_and_floats() {
    assert_eq!(jint(Some(&from_json("7"))), 7);
    assert_eq!(jint(Some(&from_json("-7"))), -7);
    assert_eq!(jint(Some(&from_json("100.0"))), 100);
    assert_eq!(jint(Some(&from_json("-2.9"))), -2);
    assert_eq!(jint(Some(&from_json("1e20"))), i64::MAX);
    assert_eq!(jint(Some(&from_json("-1e20"))), i64::MIN);
    assert_eq!(jint(Some(&from_json("18446744073709551615"))), i64::MAX);
    assert_eq!(jint(Some(&from_json("\"5\""))), 0);
    assert_eq!(jint(None), 0);
}

#[test]
fn as_i64_refuses_floats() {
    assert_eq!(as_i64(Some(&from_json("5"))), Some(5));
    assert_eq!(as_i64(Some(&from_json("5.0"))), None);
    assert_eq!(as_i64(Some(&from_json("18446744073709551615"))), None);
}

#[test]
fn float_reading_of_integers_rounds_to_double() {
    assert_eq!(num_as_i64_exec(Some(&from_json("9007199254740993"))), Some(9007199254740992));
    assert_eq!(num_as_i64_exec(Some(&from_json("9007199254740995"))), Some(9007199254740996));
    assert_eq!(num_as_i64_exec(Some(&from_json("-9007199254740993"))), Some(-9007199254740992));
    assert_eq!(num_as_i64_exec(Some(&from_json("9223372036854775807"))), Some(i64::MAX));
    assert_eq!(num_as_i64_exec(Some(&from_json("-9223372036854775808"))), Some(i64::MIN));
    assert_eq!(num_as_i64_exec(Some(&from_json("3"))), Some(3));
    assert_eq!(num_as_i64_exec(Some(&from_json("2.75"))), Some(2));
    assert_eq!(num_as_i64_exec(Some(&from_json("null"))), None);
    for n in [9007199254740993u64, 123456789012345678, 18014398509481985, 4611686018427387905] {
        let v = from_json(&n.to_string());
        assert_eq!(num_as_i64_exec(Some(&v)), Some((n as f64) as i64));
    }
}

#[test]
fn get_reads_fields() {
    let v = from_json("{\"a\":{\"b\":\"c\"}}");
    let b = get(get(Some(&v), "a"), "b");
    assert_eq!(canonical(b.unwrap()), "\"c\"");
    assert!(get(Some(&v), "missing").is_none());
    assert!(get(None, "a").is_none());
}

#[test]
fn repair_string_twice_is_once() {
    let inputs = [
        "\"a\\q😀\n\"",
        "{\"k\":\"\\u12G4 \u{1}\\\"😀\\",
        "plain 😀 text \\ outside",
        "\"𝄞\\u00e9\t\"",
    ];
    for s in inputs.iter() {
        let once = repair_string(s);
        assert_eq!(repair_string(&once), once);
    }
    assert_eq!(repair_string("\"😀\\x\""), "\"😀\\\\x\"");
}

fn units(s: &str) -> Vec<u16> {
    s.encode_utf16().collect()
}

#[test]
fn repair_retry_only_after_a_failed_read_of_a_changed_text() {
    assert_eq!(repair_retry("{\"a\":\"x\ny\"}", &Err(())), Some("{\"a\":\"x\\ny\"}".to_string()));
    assert_eq!(repair_retry("{\"a\":\"x\ny\"}", &Ok(JsVal::Null)), None);
    // The repair leaves this text as it is, so there is nothing to retry.
    assert_eq!(repair_retry("[1,2", &Err(())), None);
}

#[test]
fn number_retry_cuts_at_the_last_e() {
    let u = units("1.5e");
    assert_eq!(number_retry(&u, 0, 4, &Err(())), Some("1.5".to_string()));
    assert_eq!(number_retry(&u, 0, 4, &Ok(JsVal::Null)), None);
    let u = units("[2e5,-");
    assert_eq!(number_retry(&u, 5, 6, &Err(())), None);
    let u = units("[12x");
    assert_eq!(number_retry(&u, 1, 4, &Err(())), None);
    // The last `e` of the whole text, even before `start`, is the cut.
    let u = units("[1e,7x");
    assert_eq!(number_retry(&u, 4, 6, &Err(())), Some("e,".to_string()));
}

#[test]
fn unclosed_string_retry_cuts_at_the_last_backslash() {
    let u = units("\"ab\\u12");
    assert_eq!(unclosed_string_retry(&u, 0, &Err(())), Some("\"ab\"".to_string()));
    assert_eq!(unclosed_string_retry(&u, 0, &Ok(JsVal::Null)), None);
    let u = units("\"abc");
    assert_eq!(unclosed_string_retry(&u, 0, &Err(())), Some("\"".to_string()));
}
