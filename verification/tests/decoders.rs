use ai_streaming_core::anthropic::{
    assemble_anthropic, decode_anthropic, decode_anthropic_canonical, iterate_anthropic_events,
};
use ai_streaming_core::openai::{decode_openai, decode_openai_canonical};
use ai_streaming_core::partial_json::{canonical, value_to_jsval, JsVal};
use ai_streaming_core::sse::parse_sse;

fn sse(events: &[(&str, &str)]) -> Vec<u8> {
    let mut out = String::new();
    for (name, data) in events {
        out.push_str(&format!("event: {}\ndata: {}\n\n", name, data));
    }
    out.into_bytes()
}

fn parsed(t: &JsVal) -> serde_json::Value {
    serde_json::from_str(&canonical(t)).unwrap()
}

fn chunk(text: &str) -> JsVal {
    let v: serde_json::Value = serde_json::from_str(text).unwrap();
    value_to_jsval(&v)
}

const MSG_START: &str = r#"{"type":"message_start","message":{"id":"msg_1","usage":{"input_tokens":10,"output_tokens":1}}}"#;
const MSG_STOP: &str = r#"{"type":"message_stop"}"#;

// ---- Anthropic ----

#[test]
fn anthropic_text_stream_transcript() {
    let bytes = sse(&[
        ("message_start", MSG_START),
        ("content_block_start", r#"{"type":"content_block_start","index":0,"content_block":{"type":"text","text":""}}"#),
        ("ping", r#"{"type":"ping"}"#),
        ("content_block_delta", r#"{"type":"content_block_delta","index":0,"delta":{"type":"text_delta","text":"Hi"}}"#),
        ("content_block_stop", r#"{"type":"content_block_stop","index":0}"#),
        ("message_delta", r#"{"type":"message_delta","delta":{"stop_reason":"end_turn"},"usage":{"output_tokens":5}}"#),
        ("message_stop", MSG_STOP),
    ]);
    let t = decode_anthropic(&[bytes], "anthropic-messages", "anthropic", "model-a");
    let expected = [
        r#"{"events":["#,
        r#"{"snapshot":[],"type":"start"},"#,
        r#"{"contentIndex":0,"snapshot":[{"text":"","type":"text"}],"type":"text_start"},"#,
        r#"{"contentIndex":0,"delta":"Hi","snapshot":[{"text":"Hi","type":"text"}],"type":"text_delta"},"#,
        r#"{"content":"Hi","contentIndex":0,"snapshot":[{"text":"Hi","type":"text"}],"type":"text_end"},"#,
        r#"{"reason":"stop","snapshot":[{"text":"Hi","type":"text"}],"type":"done"}"#,
        r#"],"final":{"api":"anthropic-messages","content":[{"text":"Hi","type":"text"}],"model":"model-a","#,
        r#""provider":"anthropic","responseId":"msg_1","role":"assistant","stopReason":"stop","#,
        r#""usage":{"cacheRead":0,"cacheWrite":0,"cacheWrite1h":0,"input":10,"output":5,"totalTokens":15}}}"#,
    ]
    .concat();
    assert_eq!(canonical(&t), expected);
}

#[test]
fn anthropic_chunking_does_not_change_transcript() {
    let bytes = sse(&[
        ("message_start", MSG_START),
        ("content_block_start", r#"{"type":"content_block_start","index":0,"content_block":{"type":"text","text":""}}"#),
        ("content_block_delta", r#"{"type":"content_block_delta","index":0,"delta":{"type":"text_delta","text":"héllo"}}"#),
        ("content_block_stop", r#"{"type":"content_block_stop","index":0}"#),
        ("message_delta", r#"{"type":"message_delta","delta":{"stop_reason":"max_tokens"},"usage":{}}"#),
        ("message_stop", MSG_STOP),
    ]);
    let whole = canonical(&decode_anthropic(&[bytes.clone()], "a", "p", "m"));
    let pieces: Vec<Vec<u8>> = bytes.chunks(7).map(|c| c.to_vec()).collect();
    let cut = canonical(&decode_anthropic(&pieces, "a", "p", "m"));
    assert_eq!(whole, cut);
    let v: serde_json::Value = serde_json::from_str(&whole).unwrap();
    assert_eq!(v["final"]["stopReason"], "length");
    assert_eq!(v["final"]["content"][0]["text"], "héllo");
}

#[test]
fn anthropic_tool_use_and_thinking() {
    let bytes = sse(&[
        ("message_start", MSG_START),
        ("content_block_start", r#"{"type":"content_block_start","index":0,"content_block":{"type":"thinking","thinking":""}}"#),
        ("content_block_delta", r#"{"type":"content_block_delta","index":0,"delta":{"type":"thinking_delta","thinking":"plan"}}"#),
        ("content_block_delta", r#"{"type":"content_block_delta","index":0,"delta":{"type":"signature_delta","signature":"sig1"}}"#),
        ("content_block_stop", r#"{"type":"content_block_stop","index":0}"#),
        ("content_block_start", r#"{"type":"content_block_start","index":1,"content_block":{"type":"tool_use","id":"tu_1","name":"lookup","input":{}}}"#),
        ("content_block_delta", r#"{"type":"content_block_delta","index":1,"delta":{"type":"input_json_delta","partial_json":"{\"q\": \"ca"}}"#),
        ("content_block_delta", r#"{"type":"content_block_delta","index":1,"delta":{"type":"input_json_delta","partial_json":"ts\", \"n\": 3}"}}"#),
        ("content_block_stop", r#"{"type":"content_block_stop","index":1}"#),
        ("message_delta", r#"{"type":"message_delta","delta":{"stop_reason":"tool_use"},"usage":{"output_tokens":9,"output_tokens_details":{"thinking_tokens":4}}}"#),
        ("message_stop", MSG_STOP),
    ]);
    let t = decode_anthropic(&[bytes], "a", "p", "m");
    let v = parsed(&t);
    let events = v["events"].as_array().unwrap();
    let types: Vec<&str> = events.iter().map(|e| e["type"].as_str().unwrap()).collect();
    assert_eq!(
        types,
        vec![
            "start",
            "thinking_start",
            "thinking_delta",
            "thinking_end",
            "toolcall_start",
            "toolcall_delta",
            "toolcall_delta",
            "toolcall_end",
            "done"
        ]
    );
    // The arguments parsed from the partial text after the first fragment.
    assert_eq!(canonical_of(&events[5]["snapshot"][1]["arguments"]), r#"{"q":"ca"}"#);
    assert_eq!(canonical_of(&events[7]["snapshot"][1]["arguments"]), r#"{"n":3,"q":"cats"}"#);
    let fin = &v["final"];
    assert_eq!(fin["stopReason"], "toolUse");
    assert_eq!(fin["content"][0]["thinkingSignature"], "sig1");
    assert_eq!(fin["content"][0]["thinking"], "plan");
    assert_eq!(fin["content"][1]["id"], "tu_1");
    assert_eq!(fin["content"][1]["name"], "lookup");
    assert_eq!(fin["usage"]["reasoning"], 4);
    assert_eq!(fin["usage"]["totalTokens"], 19);
}

fn canonical_of(v: &serde_json::Value) -> String {
    canonical(&value_to_jsval(v))
}

#[test]
fn anthropic_redacted_thinking() {
    let bytes = sse(&[
        ("message_start", MSG_START),
        ("content_block_start", r#"{"type":"content_block_start","index":0,"content_block":{"type":"redacted_thinking","data":"opaque"}}"#),
        ("content_block_stop", r#"{"type":"content_block_stop","index":0}"#),
        ("message_delta", r#"{"type":"message_delta","delta":{"stop_reason":"end_turn"}}"#),
        ("message_stop", MSG_STOP),
    ]);
    let v = parsed(&decode_anthropic(&[bytes], "a", "p", "m"));
    let block = &v["final"]["content"][0];
    assert_eq!(block["thinking"], "[Reasoning redacted]");
    assert_eq!(block["thinkingSignature"], "opaque");
    assert_eq!(block["redacted"], true);
}

#[test]
fn anthropic_unknown_stop_reason_is_an_error() {
    let bytes = sse(&[
        ("message_start", MSG_START),
        ("message_delta", r#"{"type":"message_delta","delta":{"stop_reason":"weird"},"usage":{"output_tokens":50}}"#),
        ("content_block_start", r#"{"type":"content_block_start","index":0,"content_block":{"type":"text"}}"#),
        ("message_stop", MSG_STOP),
    ]);
    let v = parsed(&decode_anthropic(&[bytes], "a", "p", "m"));
    assert_eq!(v["final"]["stopReason"], "error");
    assert_eq!(v["final"]["errorMessage"], "Unhandled stop reason: weird");
    // The usage of the failing event and every later event are not applied.
    assert_eq!(v["final"]["usage"]["output"], 1);
    assert_eq!(v["final"]["content"].as_array().unwrap().len(), 0);
    let events = v["events"].as_array().unwrap();
    assert_eq!(events.len(), 2);
    assert_eq!(events[1]["type"], "error");
    assert_eq!(events[1]["reason"], "error");
}

#[test]
fn anthropic_refusal_uses_explanation() {
    let bytes = sse(&[
        ("message_start", MSG_START),
        ("message_delta", r#"{"type":"message_delta","delta":{"stop_reason":"refusal","stop_details":{"explanation":"no"}}}"#),
        ("message_stop", MSG_STOP),
    ]);
    let v = parsed(&decode_anthropic(&[bytes], "a", "p", "m"));
    assert_eq!(v["final"]["stopReason"], "error");
    assert_eq!(v["final"]["errorMessage"], "no");
    let bytes2 = sse(&[
        ("message_start", MSG_START),
        ("message_delta", r#"{"type":"message_delta","delta":{"stop_reason":"refusal"}}"#),
        ("message_stop", MSG_STOP),
    ]);
    let v2 = parsed(&decode_anthropic(&[bytes2], "a", "p", "m"));
    assert_eq!(v2["final"]["errorMessage"], "The model refused to complete the request");
}

#[test]
fn anthropic_sensitive_without_message() {
    let bytes = sse(&[
        ("message_start", MSG_START),
        ("message_delta", r#"{"type":"message_delta","delta":{"stop_reason":"sensitive"}}"#),
        ("message_stop", MSG_STOP),
    ]);
    let v = parsed(&decode_anthropic(&[bytes], "a", "p", "m"));
    assert_eq!(v["final"]["stopReason"], "error");
    assert_eq!(v["final"]["errorMessage"], "An unknown error occurred");
}

#[test]
fn anthropic_stream_without_stop_is_an_error() {
    let bytes = sse(&[("message_start", MSG_START)]);
    let v = parsed(&decode_anthropic(&[bytes], "a", "p", "m"));
    assert_eq!(v["final"]["errorMessage"], "Anthropic stream ended before message_stop");
    assert_eq!(v["final"]["stopReason"], "error");
}

#[test]
fn anthropic_error_event_ends_stream() {
    let bytes = sse(&[
        ("message_start", MSG_START),
        ("error", r#"{"type":"error","error":{"type":"overloaded_error"}}"#),
        ("message_stop", MSG_STOP),
    ]);
    let sse_events = parse_sse(&[bytes.clone()]);
    let (yielded, err) = iterate_anthropic_events(&sse_events);
    assert_eq!(yielded.len(), 1);
    assert_eq!(err, Some(r#"{"type":"error","error":{"type":"overloaded_error"}}"#.to_string()));
    let v = parsed(&decode_anthropic(&[bytes], "a", "p", "m"));
    assert_eq!(v["final"]["errorMessage"], r#"{"type":"error","error":{"type":"overloaded_error"}}"#);
}

#[test]
fn anthropic_unparsable_payload_is_an_error() {
    let bytes = sse(&[("message_start", MSG_START), ("content_block_delta", "{not json")]);
    let (yielded, err) = iterate_anthropic_events(&parse_sse(&[bytes]));
    assert_eq!(yielded.len(), 1);
    assert_eq!(err, Some("Could not parse Anthropic SSE event content_block_delta".to_string()));
}

#[test]
fn anthropic_repaired_payload_is_read() {
    // A raw tab inside a string is repaired before parsing.
    let bytes = sse(&[
        ("message_start", MSG_START),
        ("content_block_start", r#"{"type":"content_block_start","index":0,"content_block":{"type":"text","text":""}}"#),
        ("content_block_delta", "{\"type\":\"content_block_delta\",\"index\":0,\"delta\":{\"type\":\"text_delta\",\"text\":\"a\tb\"}}"),
        ("message_delta", r#"{"type":"message_delta","delta":{"stop_reason":"end_turn"}}"#),
        ("message_stop", MSG_STOP),
    ]);
    let v = parsed(&decode_anthropic(&[bytes], "a", "p", "m"));
    assert_eq!(v["final"]["content"][0]["text"], "a\tb");
}

#[test]
fn anthropic_non_message_events_are_skipped() {
    let bytes = sse(&[("ping", "{}"), ("other", "not json at all")]);
    let (yielded, err) = iterate_anthropic_events(&parse_sse(&[bytes]));
    assert!(yielded.is_empty());
    assert_eq!(err, None);
}

#[test]
fn anthropic_assembly_from_events() {
    let yielded = vec![
        chunk(MSG_START),
        chunk(r#"{"type":"message_delta","delta":{"stop_reason":"pause_turn"},"usage":{"input_tokens":3,"cache_read_input_tokens":2}}"#),
    ];
    let v = parsed(&assemble_anthropic(&yielded, None, "a", "p", "m"));
    assert_eq!(v["final"]["stopReason"], "stop");
    assert_eq!(v["final"]["usage"]["input"], 3);
    assert_eq!(v["final"]["usage"]["cacheRead"], 2);
    assert_eq!(v["final"]["usage"]["totalTokens"], 6);
    let w = parsed(&assemble_anthropic(&yielded, Some("boom".to_string()), "a", "p", "m"));
    assert_eq!(w["final"]["errorMessage"], "boom");
    assert_eq!(w["events"][1]["type"], "error");
}

// ---- OpenAI ----

#[test]
fn openai_full_transcript() {
    let chunks = vec![
        chunk(r#"{"id":"c1","model":"gpt-x","choices":[{"index":0,"delta":{"role":"assistant","content":"Hel"}}]}"#),
        chunk(r#"{"id":"c1","model":"gpt-x","choices":[{"index":0,"delta":{"content":"lo"}}]}"#),
        chunk(r#"{"id":"c1","choices":[{"index":0,"delta":{"reasoning_content":"think"}}]}"#),
        chunk(r#"{"id":"c1","choices":[{"index":0,"delta":{"tool_calls":[{"index":0,"id":"call_1","function":{"name":"get","arguments":"{\"a\":"}}]}}]}"#),
        chunk(r#"{"id":"c1","choices":[{"index":0,"delta":{"tool_calls":[{"index":0,"function":{"arguments":"1}"}}]},"finish_reason":"tool_calls"}],"usage":{"prompt_tokens":10,"completion_tokens":5,"prompt_tokens_details":{"cached_tokens":2}}}"#),
    ];
    let t = decode_openai(&chunks, "openai-completions", "openai", "gpt");
    let expected = [
        r#"{"events":["#,
        r#"{"type":"start"},"#,
        r#"{"contentIndex":0,"type":"text_start"},"#,
        r#"{"contentIndex":0,"delta":"Hel","type":"text_delta"},"#,
        r#"{"contentIndex":0,"delta":"lo","type":"text_delta"},"#,
        r#"{"contentIndex":1,"type":"thinking_start"},"#,
        r#"{"contentIndex":1,"delta":"think","type":"thinking_delta"},"#,
        r#"{"contentIndex":2,"type":"toolcall_start"},"#,
        r#"{"contentIndex":2,"delta":"{\"a\":","type":"toolcall_delta"},"#,
        r#"{"contentIndex":2,"delta":"1}","type":"toolcall_delta"},"#,
        r#"{"content":"Hello","contentIndex":0,"type":"text_end"},"#,
        r#"{"content":"think","contentIndex":1,"type":"thinking_end"},"#,
        r#"{"contentIndex":2,"type":"toolcall_end"},"#,
        r#"{"reason":"toolUse","type":"done"}"#,
        r#"],"final":{"api":"openai-completions","content":["#,
        r#"{"text":"Hello","type":"text"},"#,
        r#"{"thinking":"think","thinkingSignature":"reasoning_content","type":"thinking"},"#,
        r#"{"arguments":{"a":1},"id":"call_1","name":"get","type":"toolCall"}"#,
        r#"],"model":"gpt","provider":"openai","responseId":"c1","responseModel":"gpt-x","role":"assistant","#,
        r#""stopReason":"toolUse","#,
        r#""usage":{"cacheRead":2,"cacheWrite":0,"input":8,"output":5,"reasoning":0,"totalTokens":15}}}"#,
    ]
    .concat();
    assert_eq!(canonical(&t), expected);
}

#[test]
fn openai_without_finish_reason_is_an_error() {
    let chunks = vec![chunk(r#"{"id":"c","choices":[{"delta":{"content":"x"}}]}"#)];
    let v = parsed(&decode_openai(&chunks, "a", "p", "m"));
    assert_eq!(v["final"]["stopReason"], "error");
    assert_eq!(v["final"]["errorMessage"], "Stream ended without finish_reason");
    let events = v["events"].as_array().unwrap();
    assert_eq!(events.last().unwrap()["type"], "error");
    assert_eq!(events[events.len() - 2]["type"], "text_end");
}

#[test]
fn openai_empty_stream_is_an_error() {
    let v = parsed(&decode_openai(&[], "a", "p", "m"));
    assert_eq!(v["events"].as_array().unwrap().len(), 2);
    assert_eq!(v["final"]["errorMessage"], "Stream ended without finish_reason");
}

#[test]
fn openai_content_filter_is_an_error() {
    let chunks = vec![chunk(r#"{"choices":[{"delta":{},"finish_reason":"content_filter"}]}"#)];
    let v = parsed(&decode_openai(&chunks, "a", "p", "m"));
    assert_eq!(v["final"]["stopReason"], "error");
    assert_eq!(v["final"]["errorMessage"], "Provider finish_reason: content_filter");
}

#[test]
fn openai_stop_reasons() {
    for (reason, stop) in [("stop", "stop"), ("end", "stop"), ("length", "length"), ("function_call", "toolUse")] {
        let text = format!(r#"{{"choices":[{{"delta":{{}},"finish_reason":"{}"}}]}}"#, reason);
        let v = parsed(&decode_openai(&[chunk(&text)], "a", "p", "m"));
        assert_eq!(v["final"]["stopReason"], stop);
        let events = v["events"].as_array().unwrap();
        assert_eq!(events.last().unwrap()["type"], "done");
        assert_eq!(events.last().unwrap()["reason"], stop);
    }
}

#[test]
fn openai_skips_non_objects_and_missing_choices() {
    let chunks = vec![
        chunk("42"),
        chunk(r#"{"id":"","choices":[]}"#),
        chunk(r#"{"id":"real","choices":[null]}"#),
        chunk(r#"{"id":"later","choices":[{"delta":{"content":"a"},"finish_reason":"stop"}]}"#),
    ];
    let v = parsed(&decode_openai(&chunks, "a", "p", "m"));
    // An empty response id is replaced; the first non-empty one stays.
    assert_eq!(v["final"]["responseId"], "real");
    assert_eq!(v["final"]["content"][0]["text"], "a");
}

#[test]
fn openai_usage_from_choice_and_cache_fallback() {
    let chunks = vec![chunk(
        r#"{"choices":[{"delta":{},"finish_reason":"stop","usage":{"prompt_tokens":20,"completion_tokens":3,"prompt_cache_hit_tokens":5,"completion_tokens_details":{"reasoning_tokens":2}}}]}"#,
    )];
    let v = parsed(&decode_openai(&chunks, "a", "p", "m"));
    let u = &v["final"]["usage"];
    assert_eq!(u["input"], 15);
    assert_eq!(u["cacheRead"], 5);
    assert_eq!(u["output"], 3);
    assert_eq!(u["reasoning"], 2);
    assert_eq!(u["totalTokens"], 23);
}

#[test]
fn openai_present_zero_cached_tokens_wins() {
    let chunks = vec![chunk(
        r#"{"choices":[{"delta":{},"finish_reason":"stop"}],"usage":{"prompt_tokens":20,"prompt_tokens_details":{"cached_tokens":0},"prompt_cache_hit_tokens":5}}"#,
    )];
    let v = parsed(&decode_openai(&chunks, "a", "p", "m"));
    assert_eq!(v["final"]["usage"]["cacheRead"], 0);
    assert_eq!(v["final"]["usage"]["input"], 20);
}

#[test]
fn openai_input_never_negative_and_float_counts() {
    let chunks = vec![chunk(
        r#"{"choices":[{"delta":{},"finish_reason":"stop"}],"usage":{"prompt_tokens":3.0,"completion_tokens":2.0,"prompt_tokens_details":{"cached_tokens":5,"cache_write_tokens":1}}}"#,
    )];
    let v = parsed(&decode_openai(&chunks, "a", "p", "m"));
    let u = &v["final"]["usage"];
    assert_eq!(u["input"], 0);
    assert_eq!(u["output"], 2);
    assert_eq!(u["cacheWrite"], 1);
    assert_eq!(u["totalTokens"], 8);
}

#[test]
fn openai_thinking_signature_is_fixed_at_creation() {
    let chunks = vec![
        chunk(r#"{"choices":[{"delta":{"reasoning":"a"}}]}"#),
        chunk(r#"{"choices":[{"delta":{"reasoning_content":"b","reasoning_text":"c"}}]}"#),
        chunk(r#"{"choices":[{"delta":{"reasoning_text":"d"},"finish_reason":"stop"}]}"#),
    ];
    let v = parsed(&decode_openai(&chunks, "a", "p", "m"));
    let b = &v["final"]["content"][0];
    assert_eq!(b["thinkingSignature"], "reasoning");
    assert_eq!(b["thinking"], "abd");
    assert_eq!(v["final"]["content"].as_array().unwrap().len(), 1);
}

#[test]
fn openai_tool_calls_by_index_and_id() {
    let chunks = vec![
        // Two calls in one delta, each with its own stream index.
        chunk(r#"{"choices":[{"delta":{"tool_calls":[{"index":0,"id":"A","function":{"name":"f","arguments":""}},{"index":1,"function":{"name":"g"}}]}}]}"#),
        // The second call's id arrives late; found by index and filled in.
        chunk(r#"{"choices":[{"delta":{"tool_calls":[{"index":1,"id":"B","function":{"arguments":"{\"x\":1}"}}]}}]}"#),
        // A fragment with no index, found by id.
        chunk(r#"{"choices":[{"delta":{"tool_calls":[{"id":"A","function":{"arguments":"[1,"}}]}}]}"#),
        chunk(r#"{"choices":[{"delta":{"tool_calls":[{"id":"A","function":{"arguments":"2]"}}]},"finish_reason":"tool_calls"}]}"#),
    ];
    let v = parsed(&decode_openai(&chunks, "a", "p", "m"));
    let content = v["final"]["content"].as_array().unwrap();
    assert_eq!(content.len(), 2);
    assert_eq!(content[0]["id"], "A");
    assert_eq!(content[0]["name"], "f");
    assert_eq!(canonical_of(&content[0]["arguments"]), "[1,2]");
    assert_eq!(content[1]["id"], "B");
    assert_eq!(content[1]["name"], "g");
    assert_eq!(canonical_of(&content[1]["arguments"]), r#"{"x":1}"#);
    let events = v["events"].as_array().unwrap();
    let deltas: Vec<(i64, String)> = events
        .iter()
        .filter(|e| e["type"] == "toolcall_delta")
        .map(|e| (e["contentIndex"].as_i64().unwrap(), e["delta"].as_str().unwrap().to_string()))
        .collect();
    assert_eq!(
        deltas,
        vec![
            (0, "".to_string()),
            (1, "".to_string()),
            (1, "{\"x\":1}".to_string()),
            (0, "[1,".to_string()),
            (0, "2]".to_string())
        ]
    );
}

#[test]
fn openai_response_model_only_when_different() {
    let same = vec![chunk(r#"{"model":"m","choices":[{"delta":{},"finish_reason":"stop"}]}"#)];
    let v = parsed(&decode_openai(&same, "a", "p", "m"));
    assert!(v["final"].get("responseModel").is_none());
    let other = vec![
        chunk(r#"{"model":"m2","choices":[]}"#),
        chunk(r#"{"model":"m3","choices":[{"delta":{},"finish_reason":"stop"}]}"#),
    ];
    let w = parsed(&decode_openai(&other, "a", "p", "m"));
    assert_eq!(w["final"]["responseModel"], "m2");
}

#[test]
fn openai_tool_arguments_parsed_at_every_fragment() {
    let chunks = vec![
        chunk(r#"{"choices":[{"delta":{"tool_calls":[{"index":0,"id":"t","function":{"name":"n","arguments":"{\"k\":\"v"}}]}}]}"#),
        chunk(r#"{"choices":[{"delta":{},"finish_reason":"length"}]}"#),
    ];
    let v = parsed(&decode_openai(&chunks, "a", "p", "m"));
    assert_eq!(canonical_of(&v["final"]["content"][0]["arguments"]), r#"{"k":"v"}"#);
    assert_eq!(v["final"]["stopReason"], "length");
}

// ---- JSON-text entry points ----

fn byte_array_json(chunks: &[Vec<u8>]) -> String {
    let parts: Vec<String> = chunks
        .iter()
        .map(|c| {
            let nums: Vec<String> = c.iter().map(|b| b.to_string()).collect();
            format!("[{}]", nums.join(","))
        })
        .collect();
    format!("[{}]", parts.join(","))
}

#[test]
fn anthropic_json_text_matches_byte_chunks() {
    let bytes = sse(&[
        ("message_start", MSG_START),
        ("content_block_start", r#"{"type":"content_block_start","index":0,"content_block":{"type":"text","text":""}}"#),
        ("content_block_delta", r#"{"type":"content_block_delta","index":0,"delta":{"type":"text_delta","text":"Hi"}}"#),
        ("content_block_stop", r#"{"type":"content_block_stop","index":0}"#),
        ("message_delta", r#"{"type":"message_delta","delta":{"stop_reason":"end_turn"},"usage":{"output_tokens":5}}"#),
        ("message_stop", MSG_STOP),
    ]);
    let pieces: Vec<Vec<u8>> = bytes.chunks(11).map(|c| c.to_vec()).collect();
    let text = byte_array_json(&pieces);
    let direct = canonical(&decode_anthropic(&pieces, "api", "prov", "mod"));
    let via_json = decode_anthropic_canonical(&text, "api", "prov", "mod").unwrap();
    assert!(decode_anthropic_canonical(&text, "api", "prov", "mod").is_ok());
    assert_eq!(via_json, direct);
    let v: serde_json::Value = serde_json::from_str(&via_json).unwrap();
    assert_eq!(v["final"]["content"][0]["text"], "Hi");
    assert_eq!(v["final"]["stopReason"], "stop");
}

#[test]
fn anthropic_json_text_empty_array_gives_start_and_done() {
    let out = decode_anthropic_canonical("[]", "a", "p", "m").unwrap();
    assert_eq!(out, canonical(&decode_anthropic(&[], "a", "p", "m")));
    let v: serde_json::Value = serde_json::from_str(&out).unwrap();
    // No message_start was seen, so the stream is not cut short.
    assert_eq!(v["final"]["stopReason"], "stop");
    assert_eq!(v["events"][0]["type"], "start");
    assert_eq!(v["events"][1]["type"], "done");
}

#[test]
fn anthropic_json_text_rejects_malformed_input() {
    for text in ["not json", "{\"a\":1}", "[[1,2,300]]", "[\"x\"]", "[[1]] x"] {
        let expected = serde_json::from_str::<Vec<Vec<u8>>>(text).unwrap_err().to_string();
        assert_eq!(decode_anthropic_canonical(text, "a", "p", "m"), Err(expected));
    }
    let e = decode_anthropic_canonical("[[1,2,300]]", "a", "p", "m").unwrap_err();
    assert!(e.contains("line 1"), "{}", e);
}

#[test]
fn openai_json_text_matches_chunk_values() {
    let parts = [
        r#"{"id":"c1","model":"gpt-x","choices":[{"index":0,"delta":{"content":"Hel"}}]}"#,
        r#"7"#,
        r#"{"id":"c1","choices":[{"index":0,"delta":{"content":"lo"},"finish_reason":"stop"}]}"#,
    ];
    let text = format!("[{}]", parts.join(","));
    let chunks: Vec<JsVal> = parts.iter().map(|p| chunk(p)).collect();
    let direct = canonical(&decode_openai(&chunks, "api", "prov", "mod"));
    let via_json = decode_openai_canonical(&text, "api", "prov", "mod").unwrap();
    assert_eq!(via_json, direct);
    let v: serde_json::Value = serde_json::from_str(&via_json).unwrap();
    assert_eq!(v["final"]["content"][0]["text"], "Hello");
    assert_eq!(v["final"]["responseModel"], "gpt-x");
}

#[test]
fn openai_json_text_rejects_non_arrays() {
    for text in ["{\"choices\":[]}", "oops", "null", "[1,"] {
        let expected = serde_json::from_str::<Vec<serde_json::Value>>(text).unwrap_err().to_string();
        assert_eq!(decode_openai_canonical(text, "a", "p", "m"), Err(expected));
    }
    let e = decode_openai_canonical("{\"choices\":[]}", "a", "p", "m").unwrap_err();
    assert!(e.contains("expected a sequence"), "{}", e);
}
