//! The Anthropic Messages stream decoder: server-sent events in, the
//! normalized transcript out (the ordered assistant-message events, each
//! with a snapshot of the content so far, and the final message).
//!
//! Timestamps, costs and the streaming scratch fields are left out of the
//! transcript; event order, content indices, text and thinking content and
//! the parsed tool arguments at every delta are kept.

use vstd::prelude::*;
use crate::json::{
    byte_chunks_document, parse_byte_chunks,
    items_view, JsNum, entries_view, pairs_view,
    as_i64, as_str, clone_js, empty_object, get, get_field, i64_of, int_num, is_null, jint,
    jint_spec, js_num, js_obj, js_str, lemma_key_index, opt_model, opt_str_view, str_of, str_val, JsModel, JsVal,
};
use crate::partial_json::{canonical, canonical_spec, parse_streaming_json, parse_streaming_spec, parse_with_repair_value, res_view, with_repair_spec};
use crate::sse::{parse_sse, parse_sse_spec, chunks_view, events_view, ServerSentEvent, SseEventModel};
use crate::text::{chars_of, push_all, str_eq, string_from_chars};

verus! {

// ---------------------------------------------------------------------------
// The message being assembled
// ---------------------------------------------------------------------------

/// The kind of a content block.
#[derive(Clone, Copy, PartialEq, Eq, Structural)]
pub enum Kind {
    Text,
    Thinking,
    ToolCall,
}

/// Model of a content block.
#[verifier::ext_equal]
pub struct BlockModel {
    pub index: i64,
    pub kind: Kind,
    pub text: Seq<char>,
    pub thinking: Seq<char>,
    pub thinking_signature: Seq<char>,
    pub redacted: bool,
    pub id: Seq<char>,
    pub name: Seq<char>,
    pub partial_json: Seq<char>,
    pub arguments: JsModel,
}

/// Model of the message being assembled.
#[verifier::ext_equal]
pub struct OutputModel {
    pub content: Seq<BlockModel>,
    pub api: Seq<char>,
    pub provider: Seq<char>,
    pub model: Seq<char>,
    pub response_id: Option<Seq<char>>,
    pub u_input: i64,
    pub u_output: i64,
    pub u_cache_read: i64,
    pub u_cache_write: i64,
    pub u_cache_write_1h: Option<i64>,
    pub u_reasoning: Option<i64>,
    pub u_total: i64,
    pub stop_reason: Seq<char>,
    pub error_message: Option<Seq<char>>,
}

pub open spec fn init_output(api: Seq<char>, provider: Seq<char>, model: Seq<char>) -> OutputModel {
    OutputModel {
        content: Seq::empty(),
        api,
        provider,
        model,
        response_id: None,
        u_input: 0,
        u_output: 0,
        u_cache_read: 0,
        u_cache_write: 0,
        u_cache_write_1h: None,
        u_reasoning: None,
        u_total: 0,
        stop_reason: "stop"@,
        error_message: None,
    }
}

/// `totalTokens`: the four counts summed (wrapping, as release builds do).
pub open spec fn total_tokens(a: i64, b: i64, c: i64, d: i64) -> i64 {
    a.wrapping_add(b).wrapping_add(c).wrapping_add(d)
}

pub open spec fn s(x: Seq<char>) -> JsModel {
    JsModel::Str(x)
}

pub open spec fn n(x: i64) -> JsModel {
    JsModel::Num(int_num(x))
}

/// A content block as it appears in a snapshot.
pub open spec fn block_json(b: BlockModel) -> JsModel {
    match b.kind {
        Kind::Text => JsModel::Obj(seq![("type"@, s("text"@)), ("text"@, s(b.text))]),
        Kind::Thinking => {
            let base = seq![
                ("type"@, s("thinking"@)),
                ("thinking"@, s(b.thinking)),
                ("thinkingSignature"@, s(b.thinking_signature)),
            ];
            if b.redacted {
                JsModel::Obj(base.push(("redacted"@, JsModel::Bool(true))))
            } else {
                JsModel::Obj(base)
            }
        },
        Kind::ToolCall => JsModel::Obj(
            seq![
                ("type"@, s("toolCall"@)),
                ("id"@, s(b.id)),
                ("name"@, s(b.name)),
                ("arguments"@, b.arguments),
            ],
        ),
    }
}

/// The content array of a snapshot.
pub open spec fn content_snapshot_spec(c: Seq<BlockModel>) -> JsModel {
    JsModel::Arr(c.map_values(|b: BlockModel| block_json(b)))
}

pub open spec fn opt_entry(key: Seq<char>, v: Option<JsModel>) -> Seq<(Seq<char>, JsModel)> {
    match v {
        Some(x) => seq![(key, x)],
        None => Seq::empty(),
    }
}

pub open spec fn opt_num(v: Option<i64>) -> Option<JsModel> {
    match v {
        Some(x) => Some(n(x)),
        None => None,
    }
}

pub open spec fn opt_s(v: Option<Seq<char>>) -> Option<JsModel> {
    match v {
        Some(x) => Some(s(x)),
        None => None,
    }
}

/// The usage object of the final message.
pub open spec fn usage_json(o: OutputModel) -> JsModel {
    JsModel::Obj(
        seq![
            ("input"@, n(o.u_input)),
            ("output"@, n(o.u_output)),
            ("cacheRead"@, n(o.u_cache_read)),
            ("cacheWrite"@, n(o.u_cache_write)),
        ] + opt_entry("cacheWrite1h"@, opt_num(o.u_cache_write_1h)) + opt_entry(
            "reasoning"@,
            opt_num(o.u_reasoning),
        ) + seq![("totalTokens"@, n(o.u_total))],
    )
}

/// The final message.
pub open spec fn final_json(o: OutputModel) -> JsModel {
    JsModel::Obj(
        seq![
            ("role"@, s("assistant"@)),
            ("api"@, s(o.api)),
            ("provider"@, s(o.provider)),
            ("model"@, s(o.model)),
        ] + opt_entry("responseId"@, opt_s(o.response_id)) + seq![
            ("content"@, content_snapshot_spec(o.content)),
            ("usage"@, usage_json(o)),
            ("stopReason"@, s(o.stop_reason)),
        ] + opt_entry("errorMessage"@, opt_s(o.error_message)),
    )
}

// Event objects.
pub open spec fn ev_snap(ty: Seq<char>, snap: JsModel) -> JsModel {
    JsModel::Obj(seq![("type"@, s(ty)), ("snapshot"@, snap)])
}

pub open spec fn ev_ci(ty: Seq<char>, ci: int, snap: JsModel) -> JsModel {
    JsModel::Obj(seq![("type"@, s(ty)), ("contentIndex"@, n(ci as i64)), ("snapshot"@, snap)])
}

pub open spec fn ev_ci_delta(ty: Seq<char>, ci: int, delta: Seq<char>, snap: JsModel) -> JsModel {
    JsModel::Obj(
        seq![
            ("type"@, s(ty)),
            ("contentIndex"@, n(ci as i64)),
            ("delta"@, s(delta)),
            ("snapshot"@, snap),
        ],
    )
}

pub open spec fn ev_ci_content(ty: Seq<char>, ci: int, content: Seq<char>, snap: JsModel) -> JsModel {
    JsModel::Obj(
        seq![
            ("type"@, s(ty)),
            ("contentIndex"@, n(ci as i64)),
            ("content"@, s(content)),
            ("snapshot"@, snap),
        ],
    )
}

pub open spec fn ev_reason(ty: Seq<char>, reason: Seq<char>, snap: JsModel) -> JsModel {
    JsModel::Obj(seq![("type"@, s(ty)), ("reason"@, s(reason)), ("snapshot"@, snap)])
}


// ---------------------------------------------------------------------------
// The assembly step
// ---------------------------------------------------------------------------

/// `v.as_str().unwrap_or("")`.
pub open spec fn str_or_empty(v: JsModel) -> Seq<char> {
    match str_of(v) {
        Some(x) => x,
        None => Seq::empty(),
    }
}

/// The position of the first block with the given stream index.
pub open spec fn find_block(c: Seq<BlockModel>, index: i64) -> Option<int>
    decreases c.len(),
{
    if c.len() == 0 {
        None
    } else {
        match find_block(c.drop_last(), index) {
            Some(i) => Some(i),
            None => if c.last().index == index {
                Some(c.len() - 1)
            } else {
                None
            },
        }
    }
}

pub open spec fn new_block(index: i64, kind: Kind) -> BlockModel {
    BlockModel {
        index,
        kind,
        text: Seq::empty(),
        thinking: Seq::empty(),
        thinking_signature: Seq::empty(),
        redacted: false,
        id: Seq::empty(),
        name: Seq::empty(),
        partial_json: Seq::empty(),
        arguments: JsModel::Obj(Seq::empty()),
    }
}

/// The stop reason and error message for a
/// provider's stop reason, or the error raised for one it does not know.
pub open spec fn map_stop_reason_spec(reason: Seq<char>, details: JsModel) -> Result<(Seq<char>, Option<Seq<char>>), Seq<char>> {
    if reason == "end_turn"@ {
        Ok(("stop"@, None))
    } else if reason == "max_tokens"@ {
        Ok(("length"@, None))
    } else if reason == "tool_use"@ {
        Ok(("toolUse"@, None))
    } else if reason == "refusal"@ {
        let explanation = match str_of(get_field(details, "explanation"@)) {
            Some(e) => if e.len() > 0 {
                e
            } else {
                "The model refused to complete the request"@
            },
            None => "The model refused to complete the request"@,
        };
        Ok(("error"@, Some(explanation)))
    } else if reason == "pause_turn"@ {
        Ok(("stop"@, None))
    } else if reason == "stop_sequence"@ {
        Ok(("stop"@, None))
    } else if reason == "sensitive"@ {
        Ok(("error"@, None))
    } else {
        Err("Unhandled stop reason: "@ + reason)
    }
}

/// Replaces the usage counts that an event's `usage` carries as integers.
pub open spec fn apply_delta_usage(o: OutputModel, usage: JsModel) -> OutputModel {
    let u_input = match i64_of(get_field(usage, "input_tokens"@)) { Some(x) => x, None => o.u_input };
    let u_output = match i64_of(get_field(usage, "output_tokens"@)) { Some(x) => x, None => o.u_output };
    let u_cache_read = match i64_of(get_field(usage, "cache_read_input_tokens"@)) { Some(x) => x, None => o.u_cache_read };
    let u_cache_write = match i64_of(get_field(usage, "cache_creation_input_tokens"@)) { Some(x) => x, None => o.u_cache_write };
    let u_reasoning = match i64_of(get_field(get_field(usage, "output_tokens_details"@), "thinking_tokens"@)) {
        Some(x) => Some(x),
        None => o.u_reasoning,
    };
    OutputModel {
        u_input,
        u_output,
        u_cache_read,
        u_cache_write,
        u_reasoning,
        u_total: total_tokens(u_input, u_output, u_cache_read, u_cache_write),
        ..o
    }
}

/// `message_start`: the response id and the starting usage.
pub open spec fn on_message_start(o: OutputModel, ev: JsModel) -> OutputModel {
    let msg = get_field(ev, "message"@);
    let usage = get_field(msg, "usage"@);
    let u_input = jint_spec(get_field(usage, "input_tokens"@));
    let u_output = jint_spec(get_field(usage, "output_tokens"@));
    let u_cache_read = jint_spec(get_field(usage, "cache_read_input_tokens"@));
    let u_cache_write = jint_spec(get_field(usage, "cache_creation_input_tokens"@));
    OutputModel {
        response_id: str_of(get_field(msg, "id"@)),
        u_input,
        u_output,
        u_cache_read,
        u_cache_write,
        u_cache_write_1h: Some(jint_spec(get_field(get_field(usage, "cache_creation"@), "ephemeral_1h_input_tokens"@))),
        u_total: total_tokens(u_input, u_output, u_cache_read, u_cache_write),
        ..o
    }
}

/// `content_block_start`: a new block and its `*_start` event.
pub open spec fn on_block_start(o: OutputModel, evs: Seq<JsModel>, ev: JsModel) -> (OutputModel, Seq<JsModel>) {
    let index = jint_spec(get_field(ev, "index"@));
    let cb = get_field(ev, "content_block"@);
    let ty = str_or_empty(get_field(cb, "type"@));
    let ci = o.content.len() as int;
    let block = if ty == "text"@ {
        Some((new_block(index, Kind::Text), "text_start"@))
    } else if ty == "thinking"@ {
        Some((new_block(index, Kind::Thinking), "thinking_start"@))
    } else if ty == "redacted_thinking"@ {
        Some((BlockModel {
            thinking: "[Reasoning redacted]"@,
            thinking_signature: str_or_empty(get_field(cb, "data"@)),
            redacted: true,
            ..new_block(index, Kind::Thinking)
        }, "thinking_start"@))
    } else if ty == "tool_use"@ {
        let input = get_field(cb, "input"@);
        Some((BlockModel {
            id: str_or_empty(get_field(cb, "id"@)),
            name: str_or_empty(get_field(cb, "name"@)),
            arguments: if input is Null { JsModel::Obj(Seq::empty()) } else { input },
            ..new_block(index, Kind::ToolCall)
        }, "toolcall_start"@))
    } else {
        None
    };
    match block {
        Some((b, ety)) => {
            let o2 = OutputModel { content: o.content.push(b), ..o };
            (o2, evs.push(ev_ci(ety, ci, content_snapshot_spec(o2.content))))
        },
        None => (o, evs),
    }
}

/// Replaces the block at `i`.
pub open spec fn set_block(o: OutputModel, i: int, b: BlockModel) -> OutputModel {
    OutputModel { content: o.content.update(i, b), ..o }
}

/// `content_block_delta`: text, thinking or tool-argument text appended to
/// the block with the event's index (when it is of the matching kind), with
/// its `*_delta` event; a signature appended without an event.
pub open spec fn on_block_delta(o: OutputModel, evs: Seq<JsModel>, ev: JsModel) -> (OutputModel, Seq<JsModel>) {
    let index = jint_spec(get_field(ev, "index"@));
    let delta = get_field(ev, "delta"@);
    let ty = str_or_empty(get_field(delta, "type"@));
    match find_block(o.content, index) {
        None => (o, evs),
        Some(i) => {
            let b = o.content[i];
            if ty == "text_delta"@ && b.kind == Kind::Text {
                let d = str_or_empty(get_field(delta, "text"@));
                let o2 = set_block(o, i, BlockModel { text: b.text + d, ..b });
                (o2, evs.push(ev_ci_delta("text_delta"@, i, d, content_snapshot_spec(o2.content))))
            } else if ty == "thinking_delta"@ && b.kind == Kind::Thinking {
                let d = str_or_empty(get_field(delta, "thinking"@));
                let o2 = set_block(o, i, BlockModel { thinking: b.thinking + d, ..b });
                (o2, evs.push(ev_ci_delta("thinking_delta"@, i, d, content_snapshot_spec(o2.content))))
            } else if ty == "input_json_delta"@ && b.kind == Kind::ToolCall {
                let d = str_or_empty(get_field(delta, "partial_json"@));
                let pj = b.partial_json + d;
                let o2 = set_block(o, i, BlockModel { partial_json: pj, arguments: parse_streaming_spec(pj), ..b });
                (o2, evs.push(ev_ci_delta("toolcall_delta"@, i, d, content_snapshot_spec(o2.content))))
            } else if ty == "signature_delta"@ && b.kind == Kind::Thinking {
                let sig = str_or_empty(get_field(delta, "signature"@));
                (set_block(o, i, BlockModel { thinking_signature: b.thinking_signature + sig, ..b }), evs)
            } else {
                (o, evs)
            }
        },
    }
}

/// `content_block_stop`: the `*_end` event of the block with the event's
/// index; a tool call's arguments are parsed once more from their text.
pub open spec fn on_block_stop(o: OutputModel, evs: Seq<JsModel>, ev: JsModel) -> (OutputModel, Seq<JsModel>) {
    let index = jint_spec(get_field(ev, "index"@));
    match find_block(o.content, index) {
        None => (o, evs),
        Some(i) => {
            let b = o.content[i];
            match b.kind {
                Kind::Text => (o, evs.push(ev_ci_content("text_end"@, i, b.text, content_snapshot_spec(o.content)))),
                Kind::Thinking => (o, evs.push(ev_ci_content("thinking_end"@, i, b.thinking, content_snapshot_spec(o.content)))),
                Kind::ToolCall => {
                    let o2 = set_block(o, i, BlockModel { arguments: parse_streaming_spec(b.partial_json), ..b });
                    (o2, evs.push(ev_ci("toolcall_end"@, i, content_snapshot_spec(o2.content))))
                },
            }
        },
    }
}

/// `message_delta`: the stop reason (an unknown one raises an error and ends
/// the assembly), then the usage counts.
pub open spec fn on_message_delta(o: OutputModel, ev: JsModel) -> (OutputModel, Option<Seq<char>>) {
    let delta = get_field(ev, "delta"@);
    let o1 = match str_of(get_field(delta, "stop_reason"@)) {
        None => Ok(o),
        Some(reason) => match map_stop_reason_spec(reason, get_field(delta, "stop_details"@)) {
            Ok((stop, err)) => Ok(OutputModel {
                stop_reason: stop,
                error_message: match err {
                    Some(m) => Some(m),
                    None => o.error_message,
                },
                ..o
            }),
            Err(msg) => Err(msg),
        },
    };
    match o1 {
        Err(msg) => (o, Some(msg)),
        Ok(o1) => (apply_delta_usage(o1, get_field(ev, "usage"@)), None),
    }
}

/// One message event applied to the message: the new message, the events
/// emitted, and an error that ends the assembly.
#[verifier::opaque]
pub open spec fn anth_step(o: OutputModel, evs: Seq<JsModel>, ev: JsModel) -> (OutputModel, Seq<JsModel>, Option<Seq<char>>) {
    let ty = str_or_empty(get_field(ev, "type"@));
    if ty == "message_start"@ {
        (on_message_start(o, ev), evs, None)
    } else if ty == "content_block_start"@ {
        let (o2, e2) = on_block_start(o, evs, ev);
        (o2, e2, None)
    } else if ty == "content_block_delta"@ {
        let (o2, e2) = on_block_delta(o, evs, ev);
        (o2, e2, None)
    } else if ty == "content_block_stop"@ {
        let (o2, e2) = on_block_stop(o, evs, ev);
        (o2, e2, None)
    } else if ty == "message_delta"@ {
        let (o2, err) = on_message_delta(o, ev);
        (o2, evs, err)
    } else {
        (o, evs, None)
    }
}

/// The message events applied in order, stopping at the first error.
pub open spec fn anth_assemble(o: OutputModel, evs: Seq<JsModel>, yielded: Seq<JsModel>) -> (OutputModel, Seq<JsModel>, Option<Seq<char>>)
    decreases yielded.len(),
{
    if yielded.len() == 0 {
        (o, evs, None)
    } else {
        let (o2, e2, err) = anth_assemble(o, evs, yielded.drop_last());
        if err is Some {
            (o2, e2, err)
        } else {
            anth_step(o2, e2, yielded.last())
        }
    }
}


// ---------------------------------------------------------------------------
// Message events from server-sent events
// ---------------------------------------------------------------------------

/// The event names that carry message events.
pub open spec fn is_message_event(name: Seq<char>) -> bool {
    name == "message_start"@ || name == "message_delta"@ || name == "message_stop"@ || name
        == "content_block_start"@ || name == "content_block_delta"@ || name == "content_block_stop"@
}

/// The run over a prefix of the server-sent events: the message events
/// read, whether `message_start` and `message_stop` were seen, and the error
/// that ended the run (an `error` event's data, or a payload that would not
/// parse).
pub open spec fn iter_prefix(sse: Seq<SseEventModel>) -> (Seq<JsModel>, bool, bool, Option<Seq<char>>)
    decreases sse.len(),
{
    if sse.len() == 0 {
        (Seq::empty(), false, false, None)
    } else {
        let (y, st, en, err) = iter_prefix(sse.drop_last());
        if err is Some {
            (y, st, en, err)
        } else {
            let e = sse.last();
            if e.event == Some("error"@) {
                (y, st, en, Some(e.data))
            } else {
                let name = match e.event { Some(x) => x, None => Seq::empty() };
                if !is_message_event(name) {
                    (y, st, en, None)
                } else {
                    match with_repair_spec(e.data) {
                        Some(v) => {
                            let ty = str_of(get_field(v, "type"@));
                            (y.push(v), st || ty == Some("message_start"@), en || ty == Some("message_stop"@), None)
                        },
                        None => (y, st, en, Some("Could not parse Anthropic SSE event "@ + name)),
                    }
                }
            }
        }
    }
}

/// The message events, and the error the stream
/// ended with (a stream that started and never stopped ends with one).
pub open spec fn iterate_spec(sse: Seq<SseEventModel>) -> (Seq<JsModel>, Option<Seq<char>>) {
    let (y, st, en, err) = iter_prefix(sse);
    match err {
        Some(m) => (y, Some(m)),
        None => if st && !en {
            (y, Some("Anthropic stream ended before message_stop"@))
        } else {
            (y, None)
        },
    }
}

// ---------------------------------------------------------------------------
// The transcript
// ---------------------------------------------------------------------------

/// The error ending: the message marked as an error with the message, and
/// an `error` event.
pub open spec fn catch_spec(o: OutputModel, evs: Seq<JsModel>, message: Seq<char>) -> (OutputModel, Seq<JsModel>) {
    let o2 = OutputModel { stop_reason: "error"@, error_message: Some(message), ..o };
    (o2, evs.push(ev_reason("error"@, "error"@, content_snapshot_spec(o2.content))))
}

/// The final message and the events from the message events and the error
/// the event stream ended with: `start`, the events of the assembly, and
/// `done` or `error`.
pub open spec fn anthropic_run(yielded: Seq<JsModel>, iterate_error: Option<Seq<char>>, api: Seq<char>, provider: Seq<char>, model: Seq<char>) -> (OutputModel, Seq<JsModel>) {
    let o0 = init_output(api, provider, model);
    let evs0 = seq![ev_snap("start"@, content_snapshot_spec(o0.content))];
    let (o1, evs1, rt_err) = anth_assemble(o0, evs0, yielded);
    let terminal = if rt_err is Some { rt_err } else { iterate_error };
    match terminal {
        Some(m) => catch_spec(o1, evs1, m),
        None => if o1.stop_reason == "error"@ || o1.stop_reason == "aborted"@ {
            catch_spec(o1, evs1, match o1.error_message {
                Some(m) => m,
                None => "An unknown error occurred"@,
            })
        } else {
            (o1, evs1.push(ev_reason("done"@, o1.stop_reason, content_snapshot_spec(o1.content))))
        },
    }
}

/// The transcript from the message events and the error the event stream
/// ended with: the events and the final message.
pub open spec fn assemble_spec(yielded: Seq<JsModel>, iterate_error: Option<Seq<char>>, api: Seq<char>, provider: Seq<char>, model: Seq<char>) -> JsModel {
    let (o, evs) = anthropic_run(yielded, iterate_error, api, provider, model);
    JsModel::Obj(seq![("events"@, JsModel::Arr(evs)), ("final"@, final_json(o))])
}

/// The transcript of a byte stream.
pub open spec fn decode_anthropic_spec(chunks: Seq<Seq<u8>>, api: Seq<char>, provider: Seq<char>, model: Seq<char>) -> JsModel {
    let (yielded, err) = iterate_spec(parse_sse_spec(chunks));
    assemble_spec(yielded, err, api, provider, model)
}


// ---------------------------------------------------------------------------
// Execution: the message and its snapshots
// ---------------------------------------------------------------------------

struct Block {
    index: i64,
    kind: Kind,
    text: Vec<char>,
    thinking: Vec<char>,
    thinking_signature: Vec<char>,
    redacted: bool,
    id: Vec<char>,
    name: Vec<char>,
    partial_json: Vec<char>,
    arguments: JsVal,
}

impl Block {
    spec fn model(&self) -> BlockModel {
        BlockModel {
            index: self.index,
            kind: self.kind,
            text: self.text@,
            thinking: self.thinking@,
            thinking_signature: self.thinking_signature@,
            redacted: self.redacted,
            id: self.id@,
            name: self.name@,
            partial_json: self.partial_json@,
            arguments: self.arguments@,
        }
    }

    fn new(index: i64, kind: Kind) -> (b: Block)
        ensures
            b.model() == new_block(index, kind),
    {
        let b = Block {
            index,
            kind,
            text: Vec::new(),
            thinking: Vec::new(),
            thinking_signature: Vec::new(),
            redacted: false,
            id: Vec::new(),
            name: Vec::new(),
            partial_json: Vec::new(),
            arguments: empty_object(),
        };
        assert(b.model() =~= new_block(index, kind));
        b
    }
}

spec fn blocks_model(c: Seq<Block>) -> Seq<BlockModel> {
    c.map_values(|b: Block| b.model())
}

pub open spec fn opt_chars(o: Option<String>) -> Option<Seq<char>> {
    match o {
        Some(x) => Some(x@),
        None => None,
    }
}

struct Output {
    content: Vec<Block>,
    api: String,
    provider: String,
    model: String,
    response_id: Option<String>,
    u_input: i64,
    u_output: i64,
    u_cache_read: i64,
    u_cache_write: i64,
    u_cache_write_1h: Option<i64>,
    u_reasoning: Option<i64>,
    u_total: i64,
    stop_reason: String,
    error_message: Option<String>,
}

pub(crate) fn pair2<'a>(k1: &'a str, v1: JsVal, k2: &'a str, v2: JsVal) -> (r: JsVal)
    ensures
        r@ == JsModel::Obj(seq![(k1@, v1@), (k2@, v2@)]),
{
    let mut pairs: Vec<(&str, JsVal)> = Vec::new();
    pairs.push((k1, v1));
    pairs.push((k2, v2));
    let r = js_obj(pairs);
    assert(pairs_view(pairs@) =~= seq![(k1@, v1@), (k2@, v2@)]);
    r
}

/// A snapshot entry list built by pushes, viewed as the model's entries.
pub(crate) fn push_pair<'a>(pairs: &mut Vec<(&'a str, JsVal)>, k: &'a str, v: JsVal)
    ensures
        pairs_view(final(pairs)@) == pairs_view(old(pairs)@).push((k@, v@)),
{
    pairs.push((k, v));
    assert(pairs_view(pairs@) =~= pairs_view(old(pairs)@).push((k@, v@)));
}

fn block_to_json(b: &Block) -> (r: JsVal)
    ensures
        r@ == block_json(b.model()),
{
    let mut pairs: Vec<(&str, JsVal)> = Vec::new();
    assert(pairs_view(pairs@) =~= Seq::<(Seq<char>, JsModel)>::empty());
    match b.kind {
        Kind::Text => {
            push_pair(&mut pairs, "type", js_str("text"));
            push_pair(&mut pairs, "text", str_val(b.text.as_slice()));
            assert(pairs_view(pairs@) =~= seq![("type"@, s("text"@)), ("text"@, s(b.text@))]);
        },
        Kind::Thinking => {
            push_pair(&mut pairs, "type", js_str("thinking"));
            push_pair(&mut pairs, "thinking", str_val(b.thinking.as_slice()));
            push_pair(&mut pairs, "thinkingSignature", str_val(b.thinking_signature.as_slice()));
            let ghost base = seq![
                ("type"@, s("thinking"@)),
                ("thinking"@, s(b.thinking@)),
                ("thinkingSignature"@, s(b.thinking_signature@)),
            ];
            assert(pairs_view(pairs@) =~= base);
            if b.redacted {
                push_pair(&mut pairs, "redacted", JsVal::Bool(true));
                assert(pairs_view(pairs@) =~= base.push(("redacted"@, JsModel::Bool(true))));
            }
        },
        Kind::ToolCall => {
            push_pair(&mut pairs, "type", js_str("toolCall"));
            push_pair(&mut pairs, "id", str_val(b.id.as_slice()));
            push_pair(&mut pairs, "name", str_val(b.name.as_slice()));
            push_pair(&mut pairs, "arguments", clone_js(&b.arguments));
            assert(pairs_view(pairs@) =~= seq![
                ("type"@, s("toolCall"@)),
                ("id"@, s(b.id@)),
                ("name"@, s(b.name@)),
                ("arguments"@, b.arguments@),
            ]);
        },
    }
    let r = js_obj(pairs);
    assert(r@ =~= block_json(b.model()));
    r
}

impl Output {
    spec fn model(&self) -> OutputModel {
        OutputModel {
            content: blocks_model(self.content@),
            api: self.api@,
            provider: self.provider@,
            model: self.model@,
            response_id: opt_chars(self.response_id),
            u_input: self.u_input,
            u_output: self.u_output,
            u_cache_read: self.u_cache_read,
            u_cache_write: self.u_cache_write,
            u_cache_write_1h: self.u_cache_write_1h,
            u_reasoning: self.u_reasoning,
            u_total: self.u_total,
            stop_reason: self.stop_reason@,
            error_message: opt_chars(self.error_message),
        }
    }

    fn new(api: &str, provider: &str, model: &str) -> (o: Output)
        ensures
            o.model() == init_output(api@, provider@, model@),
    {
        let o = Output {
            content: Vec::new(),
            api: api.to_string(),
            provider: provider.to_string(),
            model: model.to_string(),
            response_id: None,
            u_input: 0,
            u_output: 0,
            u_cache_read: 0,
            u_cache_write: 0,
            u_cache_write_1h: None,
            u_reasoning: None,
            u_total: 0,
            stop_reason: "stop".to_string(),
            error_message: None,
        };
        assert(o.model() =~= init_output(api@, provider@, model@));
        o
    }

    /// The position of the first block with the given stream index.
    fn find(&self, index: i64) -> (r: Option<usize>)
        ensures
            match r {
                Some(i) => find_block(self.model().content, index) == Some(i as int) && i < self.content@.len(),
                None => find_block(self.model().content, index) is None,
            },
    {
        let ghost c = self.model().content;
        let mut i: usize = 0;
        while i < self.content.len()
            invariant
                c == self.model().content,
                c.len() == self.content@.len(),
                i <= c.len(),
                find_block(c.subrange(0, i as int), index) is None,
            decreases self.content.len() - i,
        {
            let ghost pre = c.subrange(0, i + 1);
            assert(pre.drop_last() =~= c.subrange(0, i as int));
            if self.content[i].index == index {
                proof {
                    lemma_find_block_prefix(c, i + 1, index);
                }
                return Some(i);
            }
            i += 1;
        }
        assert(c.subrange(0, c.len() as int) =~= c);
        None
    }

    /// The content array of a snapshot.
    fn content_snapshot(&self) -> (r: JsVal)
        ensures
            r@ == content_snapshot_spec(self.model().content),
    {
        let ghost c = self.model().content;
        let ghost target = c.map_values(|b: BlockModel| block_json(b));
        let mut items: Vec<JsVal> = Vec::new();
        let mut i: usize = 0;
        while i < self.content.len()
            invariant
                c == self.model().content,
                target == c.map_values(|b: BlockModel| block_json(b)),
                c.len() == self.content@.len(),
                i <= c.len(),
                items_view(items@) == target.subrange(0, i as int),
            decreases self.content.len() - i,
        {
            let j = block_to_json(&self.content[i]);
            let ghost prev = items@;
            items.push(j);
            assert(items@.drop_last() == prev);
            assert(items_view(items@) =~= target.subrange(0, i + 1));
            i += 1;
        }
        assert(target.subrange(0, c.len() as int) =~= target);
        JsVal::Arr(items)
    }

    /// The final message.
    fn snapshot(&self) -> (r: JsVal)
        ensures
            r@ == final_json(self.model()),
    {
        let mut usage: Vec<(&str, JsVal)> = Vec::new();
        assert(pairs_view(usage@) =~= Seq::<(Seq<char>, JsModel)>::empty());
        push_pair(&mut usage, "input", js_num(self.u_input));
        push_pair(&mut usage, "output", js_num(self.u_output));
        push_pair(&mut usage, "cacheRead", js_num(self.u_cache_read));
        push_pair(&mut usage, "cacheWrite", js_num(self.u_cache_write));
        let ghost u1 = pairs_view(usage@);
        if let Some(v) = self.u_cache_write_1h {
            push_pair(&mut usage, "cacheWrite1h", js_num(v));
        }
        let ghost u2 = pairs_view(usage@);
        assert(u2 =~= u1 + opt_entry("cacheWrite1h"@, opt_num(self.u_cache_write_1h)));
        if let Some(v) = self.u_reasoning {
            push_pair(&mut usage, "reasoning", js_num(v));
        }
        let ghost u3 = pairs_view(usage@);
        assert(u3 =~= u2 + opt_entry("reasoning"@, opt_num(self.u_reasoning)));
        push_pair(&mut usage, "totalTokens", js_num(self.u_total));
        let ghost o = self.model();
        assert(u1 =~= seq![
            ("input"@, n(o.u_input)),
            ("output"@, n(o.u_output)),
            ("cacheRead"@, n(o.u_cache_read)),
            ("cacheWrite"@, n(o.u_cache_write)),
        ]);
        assert(pairs_view(usage@) =~= u3 + seq![("totalTokens"@, n(o.u_total))]);
        let usage_v = js_obj(usage);
        assert(usage_v@ == usage_json(self.model()));
        let mut msg: Vec<(&str, JsVal)> = Vec::new();
        assert(pairs_view(msg@) =~= Seq::<(Seq<char>, JsModel)>::empty());
        push_pair(&mut msg, "role", js_str("assistant"));
        push_pair(&mut msg, "api", js_str(self.api.as_str()));
        push_pair(&mut msg, "provider", js_str(self.provider.as_str()));
        push_pair(&mut msg, "model", js_str(self.model.as_str()));
        let ghost m1 = pairs_view(msg@);
        if let Some(id) = &self.response_id {
            push_pair(&mut msg, "responseId", js_str(id.as_str()));
        }
        let ghost m2 = pairs_view(msg@);
        assert(m2 =~= m1 + opt_entry("responseId"@, opt_s(opt_chars(self.response_id))));
        push_pair(&mut msg, "content", self.content_snapshot());
        push_pair(&mut msg, "usage", usage_v);
        push_pair(&mut msg, "stopReason", js_str(self.stop_reason.as_str()));
        let ghost m3 = pairs_view(msg@);
        if let Some(e) = &self.error_message {
            push_pair(&mut msg, "errorMessage", js_str(e.as_str()));
        }
        assert(pairs_view(msg@) =~= m3 + opt_entry("errorMessage"@, opt_s(opt_chars(self.error_message))));
        assert(m1 =~= seq![
            ("role"@, s("assistant"@)),
            ("api"@, s(o.api)),
            ("provider"@, s(o.provider)),
            ("model"@, s(o.model)),
        ]);
        assert(m3 =~= m2 + seq![
            ("content"@, content_snapshot_spec(o.content)),
            ("usage"@, usage_json(o)),
            ("stopReason"@, s(o.stop_reason)),
        ]);
        let r = js_obj(msg);
        assert(r@ == final_json(self.model()));
        r
    }
}

proof fn lemma_find_block_prefix(c: Seq<BlockModel>, k: int, index: i64)
    requires
        0 < k <= c.len(),
        find_block(c.subrange(0, k - 1), index) is None,
        c[k - 1].index == index,
    ensures
        find_block(c, index) == Some(k - 1),
    decreases c.len(),
{
    if c.len() == k {
        assert(c.drop_last() =~= c.subrange(0, k - 1));
    } else {
        assert(c.drop_last().subrange(0, k - 1) =~= c.subrange(0, k - 1));
        lemma_find_block_prefix(c.drop_last(), k, index);
    }
}


// ---------------------------------------------------------------------------
// Execution: events
// ---------------------------------------------------------------------------

fn ev_snap_exec(ty: &str, snap: JsVal) -> (r: JsVal)
    ensures
        r@ == ev_snap(ty@, snap@),
{
    pair2("type", js_str(ty), "snapshot", snap)
}

fn ev_ci_exec(ty: &str, ci: usize, snap: JsVal) -> (r: JsVal)
    ensures
        r@ == ev_ci(ty@, ci as int, snap@),
{
    let mut pairs: Vec<(&str, JsVal)> = Vec::new();
    push_pair(&mut pairs, "type", js_str(ty));
    push_pair(&mut pairs, "contentIndex", js_num(ci as i64));
    push_pair(&mut pairs, "snapshot", snap);
    assert(pairs_view(pairs@) =~= seq![("type"@, s(ty@)), ("contentIndex"@, n(ci as i64)), ("snapshot"@, snap@)]);
    js_obj(pairs)
}

fn ev_ci_text_exec(ty: &str, ci: usize, key: &str, text: JsVal, snap: JsVal) -> (r: JsVal)
    ensures
        r@ == JsModel::Obj(
            seq![("type"@, s(ty@)), ("contentIndex"@, n(ci as i64)), (key@, text@), ("snapshot"@, snap@)],
        ),
{
    let mut pairs: Vec<(&str, JsVal)> = Vec::new();
    push_pair(&mut pairs, "type", js_str(ty));
    push_pair(&mut pairs, "contentIndex", js_num(ci as i64));
    push_pair(&mut pairs, key, text);
    push_pair(&mut pairs, "snapshot", snap);
    assert(pairs_view(pairs@) =~= seq![("type"@, s(ty@)), ("contentIndex"@, n(ci as i64)), (key@, text@), ("snapshot"@, snap@)]);
    js_obj(pairs)
}

fn ev_reason_exec(ty: &str, reason: &str, snap: JsVal) -> (r: JsVal)
    ensures
        r@ == ev_reason(ty@, reason@, snap@),
{
    let mut pairs: Vec<(&str, JsVal)> = Vec::new();
    push_pair(&mut pairs, "type", js_str(ty));
    push_pair(&mut pairs, "reason", js_str(reason));
    push_pair(&mut pairs, "snapshot", snap);
    assert(pairs_view(pairs@) =~= seq![("type"@, s(ty@)), ("reason"@, s(reason@)), ("snapshot"@, snap@)]);
    js_obj(pairs)
}

fn push_js(events: &mut Vec<JsVal>, e: JsVal)
    ensures
        items_view(final(events)@) == items_view(old(events)@).push(e@),
{
    let ghost prev = events@;
    events.push(e);
    assert(events@.drop_last() == prev);
}

/// `v.as_str().unwrap_or("")`, as characters.
fn str_chars_or_empty(v: Option<&JsVal>) -> (r: Vec<char>)
    ensures
        r@ == str_or_empty(opt_model(v)),
{
    match as_str(v) {
        Some(x) => chars_of(x),
        None => Vec::new(),
    }
}

fn opt_string(v: Option<&JsVal>) -> (r: Option<String>)
    ensures
        opt_chars(r) == str_of(opt_model(v)),
{
    match as_str(v) {
        Some(x) => Some(x.to_string()),
        None => None,
    }
}

fn chars_is(v: &[char], lit: &str) -> (r: bool)
    ensures
        r == (v@ == lit@),
{
    let l = chars_of(lit);
    crate::text::chars_eq(v, l.as_slice())
}

impl Output {
    fn take_block(&mut self, i: usize) -> (b: Block)
        requires
            i < old(self).content@.len(),
        ensures
            b == old(self).content@[i as int],
            final(self).content@ == old(self).content@.remove(i as int),
            final(self).model() == (OutputModel { content: blocks_model(old(self).content@.remove(i as int)), ..old(self).model() }),
    {
        let b = self.content.remove(i);
        assert(self.model() =~= (OutputModel { content: blocks_model(old(self).content@.remove(i as int)), ..old(self).model() }));
        b
    }

    fn put_block(&mut self, i: usize, b: Block)
        requires
            i <= old(self).content@.len(),
        ensures
            final(self).content@ == old(self).content@.insert(i as int, b),
            final(self).model() == (OutputModel { content: blocks_model(old(self).content@.insert(i as int, b)), ..old(self).model() }),
    {
        self.content.insert(i, b);
        assert(self.model() =~= (OutputModel { content: blocks_model(old(self).content@.insert(i as int, b)), ..old(self).model() }));
    }

    /// Replaces block `i` (taken out with `take_block`).
    proof fn lemma_replace(c: Seq<Block>, i: int, b: Block)
        requires
            0 <= i < c.len(),
        ensures
            blocks_model(c.remove(i).insert(i, b)) == blocks_model(c).update(i, b.model()),
    {
        assert(blocks_model(c.remove(i).insert(i, b)) =~= blocks_model(c).update(i, b.model()));
    }

    fn set_total(&mut self)
        ensures
            final(self).model() == (OutputModel {
                u_total: total_tokens(old(self).u_input, old(self).u_output, old(self).u_cache_read, old(self).u_cache_write),
                ..old(self).model()
            }),
    {
        self.u_total = self.u_input.wrapping_add(self.u_output).wrapping_add(self.u_cache_read).wrapping_add(self.u_cache_write);
        assert(self.model() =~= (OutputModel {
                u_total: total_tokens(old(self).u_input, old(self).u_output, old(self).u_cache_read, old(self).u_cache_write),
                ..old(self).model()
            }));
    }
}

fn on_message_start_exec(out: &mut Output, ev: &JsVal)
    ensures
        final(out).model() == on_message_start(old(out).model(), ev@),
{
    let msg = get(Some(ev), "message");
    out.response_id = opt_string(get(msg, "id"));
    let usage = get(msg, "usage");
    out.u_input = jint(get(usage, "input_tokens"));
    out.u_output = jint(get(usage, "output_tokens"));
    out.u_cache_read = jint(get(usage, "cache_read_input_tokens"));
    out.u_cache_write = jint(get(usage, "cache_creation_input_tokens"));
    out.u_cache_write_1h = Some(jint(get(get(usage, "cache_creation"), "ephemeral_1h_input_tokens")));
    out.set_total();
    assert(out.model() =~= on_message_start(old(out).model(), ev@));
}

fn on_block_start_exec(out: &mut Output, events: &mut Vec<JsVal>, ev: &JsVal)
    ensures
        (final(out).model(), items_view(final(events)@)) == on_block_start(old(out).model(), items_view(old(events)@), ev@),
{
    let index = jint(get(Some(ev), "index"));
    let cb = get(Some(ev), "content_block");
    let ty = str_chars_or_empty(get(cb, "type"));
    let ghost o = out.model();
    let ghost evs = items_view(events@);
    let ci = out.content.len();
    let (block, ety) = if chars_is(ty.as_slice(), "text") {
        (Block::new(index, Kind::Text), "text_start")
    } else if chars_is(ty.as_slice(), "thinking") {
        (Block::new(index, Kind::Thinking), "thinking_start")
    } else if chars_is(ty.as_slice(), "redacted_thinking") {
        let mut b = Block::new(index, Kind::Thinking);
        b.thinking = chars_of("[Reasoning redacted]");
        b.thinking_signature = str_chars_or_empty(get(cb, "data"));
        b.redacted = true;
        (b, "thinking_start")
    } else if chars_is(ty.as_slice(), "tool_use") {
        let mut b = Block::new(index, Kind::ToolCall);
        b.id = str_chars_or_empty(get(cb, "id"));
        b.name = str_chars_or_empty(get(cb, "name"));
        let input = get(cb, "input");
        b.arguments = if is_null(input) {
            empty_object()
        } else {
            match input {
                Some(x) => clone_js(x),
                None => JsVal::Null,
            }
        };
        (b, "toolcall_start")
    } else {
        return;
    };
    let ghost bm = block.model();
    out.content.push(block);
    assert(out.model() =~= (OutputModel { content: o.content.push(bm), ..o }));
    let snap = out.content_snapshot();
    push_js(events, ev_ci_exec(ety, ci, snap));
}

pub(crate) fn parse_chars(v: &[char]) -> (r: JsVal)
    ensures
        r@ == parse_streaming_spec(v@),
{
    let t = string_from_chars(v);
    parse_streaming_json(t.as_str())
}

fn on_block_delta_exec(out: &mut Output, events: &mut Vec<JsVal>, ev: &JsVal)
    ensures
        (final(out).model(), items_view(final(events)@)) == on_block_delta(old(out).model(), items_view(old(events)@), ev@),
{
    let index = jint(get(Some(ev), "index"));
    let delta = get(Some(ev), "delta");
    let ty = str_chars_or_empty(get(delta, "type"));
    let ghost o = out.model();
    let i = match out.find(index) {
        None => return,
        Some(i) => i,
    };
    let kind = out.content[i].kind;
    let is_text = chars_is(ty.as_slice(), "text_delta");
    let is_thinking = chars_is(ty.as_slice(), "thinking_delta");
    let is_json = chars_is(ty.as_slice(), "input_json_delta");
    let is_sig = chars_is(ty.as_slice(), "signature_delta");
    if !((is_text && kind == Kind::Text) || (is_thinking && kind == Kind::Thinking) || (is_json && kind == Kind::ToolCall) || (is_sig && kind == Kind::Thinking)) {
        return;
    }
    let ghost c0 = out.content@;
    let mut b = out.take_block(i);
    let ghost bm = b.model();
    assert(bm == o.content[i as int]);
    if is_text && kind == Kind::Text {
        let d = str_chars_or_empty(get(delta, "text"));
        push_all(&mut b.text, d.as_slice());
        proof { Output::lemma_replace(c0, i as int, b); }
        out.put_block(i, b);
        let snap = out.content_snapshot();
        push_js(events, ev_ci_text_exec("text_delta", i, "delta", str_val(d.as_slice()), snap));
    } else if is_thinking && kind == Kind::Thinking {
        let d = str_chars_or_empty(get(delta, "thinking"));
        push_all(&mut b.thinking, d.as_slice());
        proof { Output::lemma_replace(c0, i as int, b); }
        out.put_block(i, b);
        let snap = out.content_snapshot();
        push_js(events, ev_ci_text_exec("thinking_delta", i, "delta", str_val(d.as_slice()), snap));
    } else if is_json && kind == Kind::ToolCall {
        let d = str_chars_or_empty(get(delta, "partial_json"));
        push_all(&mut b.partial_json, d.as_slice());
        b.arguments = parse_chars(b.partial_json.as_slice());
        proof { Output::lemma_replace(c0, i as int, b); }
        out.put_block(i, b);
        let snap = out.content_snapshot();
        push_js(events, ev_ci_text_exec("toolcall_delta", i, "delta", str_val(d.as_slice()), snap));
    } else {
        let sig = str_chars_or_empty(get(delta, "signature"));
        push_all(&mut b.thinking_signature, sig.as_slice());
        proof { Output::lemma_replace(c0, i as int, b); }
        out.put_block(i, b);
    }
}

fn on_block_stop_exec(out: &mut Output, events: &mut Vec<JsVal>, ev: &JsVal)
    ensures
        (final(out).model(), items_view(final(events)@)) == on_block_stop(old(out).model(), items_view(old(events)@), ev@),
{
    let index = jint(get(Some(ev), "index"));
    let ghost o = out.model();
    let i = match out.find(index) {
        None => return,
        Some(i) => i,
    };
    match out.content[i].kind {
        Kind::Text => {
            let content = str_val(out.content[i].text.as_slice());
            let snap = out.content_snapshot();
            push_js(events, ev_ci_text_exec("text_end", i, "content", content, snap));
        },
        Kind::Thinking => {
            let content = str_val(out.content[i].thinking.as_slice());
            let snap = out.content_snapshot();
            push_js(events, ev_ci_text_exec("thinking_end", i, "content", content, snap));
        },
        Kind::ToolCall => {
            let ghost c0 = out.content@;
            let mut b = out.take_block(i);
            b.arguments = parse_chars(b.partial_json.as_slice());
            proof { Output::lemma_replace(c0, i as int, b); }
            out.put_block(i, b);
            let snap = out.content_snapshot();
            push_js(events, ev_ci_exec("toolcall_end", i, snap));
        },
    }
}


fn str_is(v: &str, lit: &str) -> (r: bool)
    ensures
        r == (v@ == lit@),
{
    str_eq(v, lit)
}

fn map_stop_reason(reason: &str, stop_details: Option<&JsVal>) -> (r: Result<(String, Option<String>), String>)
    ensures
        match (r, map_stop_reason_spec(reason@, opt_model(stop_details))) {
            (Ok((a, b)), Ok((x, y))) => a@ == x && opt_chars(b) == y,
            (Err(a), Err(x)) => a@ == x,
            _ => false,
        },
{
    if str_is(reason, "end_turn") {
        Ok(("stop".to_string(), None))
    } else if str_is(reason, "max_tokens") {
        Ok(("length".to_string(), None))
    } else if str_is(reason, "tool_use") {
        Ok(("toolUse".to_string(), None))
    } else if str_is(reason, "refusal") {
        let explanation = match as_str(get(stop_details, "explanation")) {
            Some(e) => if crate::text::chars_of(e).len() > 0 {
                e.to_string()
            } else {
                "The model refused to complete the request".to_string()
            },
            None => "The model refused to complete the request".to_string(),
        };
        Ok(("error".to_string(), Some(explanation)))
    } else if str_is(reason, "pause_turn") {
        Ok(("stop".to_string(), None))
    } else if str_is(reason, "stop_sequence") {
        Ok(("stop".to_string(), None))
    } else if str_is(reason, "sensitive") {
        Ok(("error".to_string(), None))
    } else {
        let mut m = chars_of("Unhandled stop reason: ");
        push_all(&mut m, chars_of(reason).as_slice());
        Err(string_from_chars(m.as_slice()))
    }
}

fn opt_i64_or(v: Option<i64>, d: i64) -> (r: i64)
    ensures
        r == (match v { Some(x) => x, None => d }),
{
    match v {
        Some(x) => x,
        None => d,
    }
}

/// `message_delta`; returns the error raised by an unknown stop reason.
fn on_message_delta_exec(out: &mut Output, ev: &JsVal) -> (r: Option<String>)
    ensures
        (final(out).model(), opt_chars(r)) == on_message_delta(old(out).model(), ev@),
{
    let delta = get(Some(ev), "delta");
    if let Some(reason) = as_str(get(delta, "stop_reason")) {
        match map_stop_reason(reason, get(delta, "stop_details")) {
            Ok((stop, err)) => {
                out.stop_reason = stop;
                if let Some(m) = err {
                    out.error_message = Some(m);
                }
            },
            Err(msg) => {
                return Some(msg);
            },
        }
    }
    let ghost o1 = out.model();
    let usage = get(Some(ev), "usage");
    out.u_input = opt_i64_or(as_i64(get(usage, "input_tokens")), out.u_input);
    out.u_output = opt_i64_or(as_i64(get(usage, "output_tokens")), out.u_output);
    out.u_cache_read = opt_i64_or(as_i64(get(usage, "cache_read_input_tokens")), out.u_cache_read);
    out.u_cache_write = opt_i64_or(as_i64(get(usage, "cache_creation_input_tokens")), out.u_cache_write);
    if let Some(n) = as_i64(get(get(usage, "output_tokens_details"), "thinking_tokens")) {
        out.u_reasoning = Some(n);
    }
    out.set_total();
    assert(out.model() =~= apply_delta_usage(o1, opt_model(usage)));
    None
}

/// One message event; returns the error that ends the assembly.
fn step(out: &mut Output, events: &mut Vec<JsVal>, ev: &JsVal) -> (r: Option<String>)
    ensures
        (final(out).model(), items_view(final(events)@), opt_chars(r)) == anth_step(old(out).model(), items_view(old(events)@), ev@),
{
    reveal(anth_step);
    let ty = str_chars_or_empty(get(Some(ev), "type"));
    if chars_is(ty.as_slice(), "message_start") {
        on_message_start_exec(out, ev);
        None
    } else if chars_is(ty.as_slice(), "content_block_start") {
        on_block_start_exec(out, events, ev);
        None
    } else if chars_is(ty.as_slice(), "content_block_delta") {
        on_block_delta_exec(out, events, ev);
        None
    } else if chars_is(ty.as_slice(), "content_block_stop") {
        on_block_stop_exec(out, events, ev);
        None
    } else if chars_is(ty.as_slice(), "message_delta") {
        on_message_delta_exec(out, ev)
    } else {
        None
    }
}

/// Sets the error ending: the message marked as an error, and an `error`
/// event.
fn catch(out: &mut Output, events: &mut Vec<JsVal>, message: String)
    ensures
        (final(out).model(), items_view(final(events)@)) == catch_spec(old(out).model(), items_view(old(events)@), message@),
{
    out.stop_reason = "error".to_string();
    let ghost mv = message@;
    out.error_message = Some(message);
    assert(out.model() =~= (OutputModel { stop_reason: "error"@, error_message: Some(mv), ..old(out).model() }));
    let snap = out.content_snapshot();
    push_js(events, ev_reason_exec("error", "error", snap));
}


fn is_message_event_exec(name: &[char]) -> (r: bool)
    ensures
        r == is_message_event(name@),
{
    chars_is(name, "message_start") || chars_is(name, "message_delta") || chars_is(name, "message_stop")
        || chars_is(name, "content_block_start") || chars_is(name, "content_block_delta") || chars_is(
        name,
        "content_block_stop",
    )
}

/// The message events of the server-sent events,
/// and the error the stream ended with.
pub fn iterate_anthropic_events(sse: &[ServerSentEvent]) -> (r: (Vec<JsVal>, Option<String>))
    ensures
        (items_view(r.0@), opt_chars(r.1)) == iterate_spec(events_view(sse@)),
{
    let ghost all = events_view(sse@);
    let mut yielded: Vec<JsVal> = Vec::new();
    let mut saw_start = false;
    let mut saw_end = false;
    let mut i: usize = 0;
    assert(all.subrange(0, 0) =~= Seq::<SseEventModel>::empty());
    assert(items_view(yielded@) =~= Seq::<JsModel>::empty());
    while i < sse.len()
        invariant
            all == events_view(sse@),
            i <= sse@.len(),
            iter_prefix(all.subrange(0, i as int)) == (items_view(yielded@), saw_start, saw_end, None::<Seq<char>>),
        decreases sse.len() - i,
    {
        let e = &sse[i];
        let ghost pre = all.subrange(0, i + 1);
        assert(pre.drop_last() =~= all.subrange(0, i as int));
        assert(pre.last() == sse@[i as int]@);
        let is_error = match &e.event {
            Some(name) => str_is(name.as_str(), "error"),
            None => false,
        };
        if is_error {
            let r = (yielded, Some(e.data.clone()));
            proof {
                lemma_iter_prefix_stops(all, i as int + 1);
            }
            return r;
        }
        let name: Vec<char> = match &e.event {
            Some(x) => chars_of(x.as_str()),
            None => Vec::new(),
        };
        if is_message_event_exec(name.as_slice()) {
            match parse_with_repair_value(e.data.as_str()) {
                Ok(v) => {
                    let ty = as_str(get(Some(&v), "type"));
                    let is_start = match ty { Some(t) => str_is(t, "message_start"), None => false };
                    let is_stop = match ty { Some(t) => str_is(t, "message_stop"), None => false };
                    saw_start = saw_start || is_start;
                    saw_end = saw_end || is_stop;
                    push_js(&mut yielded, v);
                },
                Err(()) => {
                    let mut m = chars_of("Could not parse Anthropic SSE event ");
                    push_all(&mut m, name.as_slice());
                    let r = (yielded, Some(string_from_chars(m.as_slice())));
                    proof {
                        lemma_iter_prefix_stops(all, i as int + 1);
                    }
                    return r;
                },
            }
        }
        i += 1;
    }
    assert(all.subrange(0, sse@.len() as int) =~= all);
    if saw_start && !saw_end {
        return (yielded, Some("Anthropic stream ended before message_stop".to_string()));
    }
    (yielded, None)
}

/// Once the run over a prefix has stopped with an error, later events do
/// not change it.
proof fn lemma_iter_prefix_stops(all: Seq<SseEventModel>, k: int)
    requires
        0 <= k <= all.len(),
        iter_prefix(all.subrange(0, k)).3 is Some,
    ensures
        iter_prefix(all) == iter_prefix(all.subrange(0, k)),
    decreases all.len() - k,
{
    if k < all.len() {
        let next = all.subrange(0, k + 1);
        assert(next.drop_last() =~= all.subrange(0, k));
        lemma_iter_prefix_stops(all, k + 1);
    } else {
        assert(all.subrange(0, k) =~= all);
    }
}


/// Applies the message events in order, stopping at the first error.
fn run_assembly(out: &mut Output, events: &mut Vec<JsVal>, yielded: &[JsVal]) -> (runtime_error: Option<String>)
    ensures
        (final(out).model(), items_view(final(events)@), opt_chars(runtime_error)) == anth_assemble(
            old(out).model(),
            items_view(old(events)@),
            items_view(yielded@),
        ),
{
    let ghost o0 = out.model();
    let ghost evs0 = items_view(events@);
    let ghost all = items_view(yielded@);
    proof {
        crate::json::lemma_items_view(yielded@);
    }
    let mut i: usize = 0;
    assert(all.subrange(0, 0) =~= Seq::<JsModel>::empty());
    while i < yielded.len()
        invariant
            all == items_view(yielded@),
            all.len() == yielded@.len(),
            forall|k: int| 0 <= k < yielded@.len() ==> #[trigger] all[k] == yielded@[k]@,
            i <= yielded@.len(),
            o0 == old(out).model(),
            evs0 == items_view(old(events)@),
            anth_assemble(o0, evs0, all.subrange(0, i as int)) == (out.model(), items_view(events@), None::<Seq<char>>),
        decreases yielded.len() - i,
    {
        let ghost pre = all.subrange(0, i + 1);
        assert(pre.drop_last() =~= all.subrange(0, i as int));
        assert(pre.last() == yielded@[i as int]@);
        let err = step(out, events, &yielded[i]);
        i += 1;
        if err.is_some() {
            proof {
                law_anthropic_assembly_stops(o0, evs0, all, i as int);
            }
            return err;
        }
    }
    assert(all.subrange(0, yielded@.len() as int) =~= all);
    None
}

/// The transcript from the message events and the error the event stream
/// ended with.
pub fn assemble_anthropic(yielded: &[JsVal], iterate_error: Option<String>, api: &str, provider: &str, model: &str) -> (r: JsVal)
    ensures
        r@ == assemble_spec(items_view(yielded@), opt_chars(iterate_error), api@, provider@, model@),
{
    let mut out = Output::new(api, provider, model);
    let mut events: Vec<JsVal> = Vec::new();
    assert(items_view(events@) =~= Seq::<JsModel>::empty());
    let snap = out.content_snapshot();
    push_js(&mut events, ev_snap_exec("start", snap));
    let ghost o0 = init_output(api@, provider@, model@);
    let ghost evs0 = seq![ev_snap("start"@, content_snapshot_spec(o0.content))];
    assert(items_view(events@) =~= evs0);
    let runtime_error = run_assembly(&mut out, &mut events, yielded);
    let terminal = if runtime_error.is_some() { runtime_error } else { iterate_error };
    match terminal {
        Some(msg) => catch(&mut out, &mut events, msg),
        None => {
            if str_is(out.stop_reason.as_str(), "error") || str_is(out.stop_reason.as_str(), "aborted") {
                let msg = match &out.error_message {
                    Some(m) => m.clone(),
                    None => "An unknown error occurred".to_string(),
                };
                catch(&mut out, &mut events, msg);
            } else {
                let snap = out.content_snapshot();
                let e = ev_reason_exec("done", out.stop_reason.as_str(), snap);
                push_js(&mut events, e);
            }
        },
    }
    let fin = out.snapshot();
    pair2("events", JsVal::Arr(events), "final", fin)
}

/// Once the assembly has stopped with an error (an unknown stop reason),
/// later message events change nothing: not the message, not the events,
/// not the error.
pub proof fn law_anthropic_assembly_stops(o: OutputModel, evs: Seq<JsModel>, all: Seq<JsModel>, k: int)
    requires
        0 <= k <= all.len(),
        anth_assemble(o, evs, all.subrange(0, k)).2 is Some,
    ensures
        anth_assemble(o, evs, all) == anth_assemble(o, evs, all.subrange(0, k)),
    decreases all.len() - k,
{
    if k < all.len() {
        let next = all.subrange(0, k + 1);
        assert(next.drop_last() =~= all.subrange(0, k));
        law_anthropic_assembly_stops(o, evs, all, k + 1);
    } else {
        assert(all.subrange(0, k) =~= all);
    }
}

/// Decodes ordered Anthropic server-sent-event byte chunks into the
/// normalized transcript.
pub fn decode_anthropic(chunks: &[Vec<u8>], api: &str, provider: &str, model: &str) -> (r: JsVal)
    ensures
        r@ == decode_anthropic_spec(chunks_view(chunks@), api@, provider@, model@),
{
    let sse = parse_sse(chunks);
    let (yielded, iterate_error) = iterate_anthropic_events(sse.as_slice());
    assemble_anthropic(yielded.as_slice(), iterate_error, api, provider, model)
}


/// The canonical transcript of a JSON text holding the byte chunks (an
/// array of byte arrays); where the text is not such an array, the parse
/// error's description.
pub fn decode_anthropic_canonical(chunks_json: &str, api: &str, provider: &str, model: &str) -> (r: Result<String, String>)
    ensures
        match byte_chunks_document(chunks_json@) {
            Ok(c) => r matches Ok(t) && t@ == canonical_spec(decode_anthropic_spec(c, api@, provider@, model@)),
            Err(m) => r matches Err(e) && e@ == m,
        },
{
    match parse_byte_chunks(chunks_json) {
        Ok(chunks) => Ok(canonical(&decode_anthropic(chunks.as_slice(), api, provider, model))),
        Err(m) => Err(m),
    }
}

// ---------------------------------------------------------------------------
// Laws
// ---------------------------------------------------------------------------

/// `a` is a prefix of `b`.
pub open spec fn prefix_of(a: Seq<JsModel>, b: Seq<JsModel>) -> bool {
    &&& a.len() <= b.len()
    &&& forall|i: int| #![trigger b[i]] 0 <= i < a.len() ==> b[i] == a[i]
}

proof fn lemma_prefix_push(a: Seq<JsModel>, e: JsModel)
    ensures
        prefix_of(a, a.push(e)),
{
    assert forall|i: int| #![trigger a.push(e)[i]] 0 <= i < a.len() implies a.push(e)[i] == a[i] by {}
}

proof fn lemma_prefix_trans(a: Seq<JsModel>, b: Seq<JsModel>, c: Seq<JsModel>)
    requires
        prefix_of(a, b),
        prefix_of(b, c),
    ensures
        prefix_of(a, c),
{
    assert forall|i: int| #![trigger c[i]] 0 <= i < a.len() implies c[i] == a[i] by {
        assert(b[i] == a[i]);
    }
}

/// A message event only ever adds events.
proof fn lemma_step_prefix(o: OutputModel, evs: Seq<JsModel>, ev: JsModel)
    ensures
        prefix_of(evs, anth_step(o, evs, ev).1),
{
    reveal(anth_step);
    lemma_prefix_push(evs, anth_step(o, evs, ev).1.last());
}

proof fn lemma_assemble_prefix(o: OutputModel, evs: Seq<JsModel>, yielded: Seq<JsModel>)
    ensures
        prefix_of(evs, anth_assemble(o, evs, yielded).1),
    decreases yielded.len(),
{
    if yielded.len() == 0 {
    } else {
        lemma_assemble_prefix(o, evs, yielded.drop_last());
        let (o2, e2, err) = anth_assemble(o, evs, yielded.drop_last());
        if err is None {
            lemma_step_prefix(o2, e2, yielded.last());
            lemma_prefix_trans(evs, e2, anth_assemble(o, evs, yielded).1);
        }
    }
}

/// The type of an event object: its `type` field, as text.
pub open spec fn event_type(e: JsModel) -> Option<Seq<char>> {
    str_of(get_field(e, "type"@))
}

/// `done` and `error` end a transcript.
pub open spec fn is_terminal_event(e: JsModel) -> bool {
    event_type(e) == Some("done"@) || event_type(e) == Some("error"@)
}

/// The types of the events that open, extend and close a block, and
/// `start`.
pub open spec fn is_progress_type(t: Seq<char>) -> bool {
    ||| t == "start"@
    ||| t == "text_start"@
    ||| t == "thinking_start"@
    ||| t == "toolcall_start"@
    ||| t == "text_delta"@
    ||| t == "thinking_delta"@
    ||| t == "toolcall_delta"@
    ||| t == "text_end"@
    ||| t == "thinking_end"@
    ||| t == "toolcall_end"@
}

/// An object whose first entry is `type` has that type.
pub proof fn lemma_event_type(entries: Seq<(Seq<char>, JsModel)>, ty: Seq<char>)
    requires
        entries.len() > 0,
        entries[0] == ("type"@, s(ty)),
    ensures
        event_type(JsModel::Obj(entries)) == Some(ty),
{
    lemma_key_index(entries, "type"@);
}

pub proof fn lemma_progress_not_terminal(e: JsModel, t: Seq<char>)
    requires
        event_type(e) == Some(t),
        is_progress_type(t),
    ensures
        !is_terminal_event(e),
{
    reveal_strlit("done");
    reveal_strlit("error");
    reveal_strlit("start");
    reveal_strlit("text_start");
    reveal_strlit("thinking_start");
    reveal_strlit("toolcall_start");
    reveal_strlit("text_delta");
    reveal_strlit("thinking_delta");
    reveal_strlit("toolcall_delta");
    reveal_strlit("text_end");
    reveal_strlit("thinking_end");
    reveal_strlit("toolcall_end");
    assert("done"@.len() == 4 && "error"@.len() == 5);
    if t == "start"@ {
        assert(t[0] == 's' && "error"@[0] == 'e');
        assert(t != "error"@);
    } else {
        assert(t.len() >= 8);
    }
    assert(t != "done"@ && t != "error"@);
}

/// No event from `from` on ends a transcript.
pub open spec fn none_terminal(evs: Seq<JsModel>, from: int) -> bool {
    forall|i: int| from <= i < evs.len() ==> !is_terminal_event(#[trigger] evs[i])
}

/// A message event adds no `done` or `error` event.
#[verifier::spinoff_prover]
#[verifier::rlimit(40)]
proof fn lemma_step_none_terminal(o: OutputModel, evs: Seq<JsModel>, ev: JsModel)
    ensures
        none_terminal(anth_step(o, evs, ev).1, evs.len() as int),
{
    reveal(anth_step);
    let r = anth_step(o, evs, ev).1;
    if r.len() > evs.len() {
        let e = r.last();
        assert(r == evs.push(e));
        match e {
            JsModel::Obj(entries) => {
                assert(entries.len() > 0);
                let t = entries[0].1->Str_0;
                assert(entries[0] == ("type"@, s(t)));
                lemma_event_type(entries, t);
                assert(is_progress_type(t));
                lemma_progress_not_terminal(e, t);
            },
            _ => {
                assert(false);
            },
        }
    }
}

proof fn lemma_assemble_none_terminal(o: OutputModel, evs: Seq<JsModel>, yielded: Seq<JsModel>)
    ensures
        none_terminal(anth_assemble(o, evs, yielded).1, evs.len() as int),
    decreases yielded.len(),
{
    if yielded.len() > 0 {
        lemma_assemble_none_terminal(o, evs, yielded.drop_last());
        lemma_assemble_prefix(o, evs, yielded.drop_last());
        let (o2, e2, err) = anth_assemble(o, evs, yielded.drop_last());
        if err is None {
            lemma_step_none_terminal(o2, e2, yielded.last());
            lemma_step_prefix(o2, e2, yielded.last());
            let e3 = anth_assemble(o, evs, yielded).1;
            assert forall|i: int| evs.len() <= i < e3.len() implies !is_terminal_event(#[trigger] e3[i]) by {
                if i < e2.len() {
                    assert(e3[i] == e2[i]);
                }
            }
        }
    }
}

/// How a `message_delta` ends the message: `end_turn`, `stop_sequence` and
/// `pause_turn` stop normally, `max_tokens` stops for length, `tool_use`
/// for a tool call, `refusal` and `sensitive` stop with an error (a refusal
/// always with an error message); in each of these cases no error ends the
/// assembly and no event is emitted, and without a stop reason the stop
/// reason and error message stay as they were.
pub proof fn law_anthropic_stop_reasons(o: OutputModel, evs: Seq<JsModel>, ev: JsModel)
    requires
        str_or_empty(get_field(ev, "type"@)) == "message_delta"@,
    ensures
        ({
            let r = str_of(get_field(get_field(ev, "delta"@), "stop_reason"@));
            let (o2, e2, err) = anth_step(o, evs, ev);
            &&& (r == Some("end_turn"@) || r == Some("stop_sequence"@) || r == Some("pause_turn"@)) ==> err is None
                && e2 == evs && o2.stop_reason == "stop"@ && o2.error_message == o.error_message
            &&& r == Some("max_tokens"@) ==> err is None && e2 == evs && o2.stop_reason == "length"@
                && o2.error_message == o.error_message
            &&& r == Some("tool_use"@) ==> err is None && e2 == evs && o2.stop_reason == "toolUse"@
                && o2.error_message == o.error_message
            &&& r == Some("sensitive"@) ==> err is None && e2 == evs && o2.stop_reason == "error"@
                && o2.error_message == o.error_message
            &&& r == Some("refusal"@) ==> err is None && e2 == evs && o2.stop_reason == "error"@
                && o2.error_message is Some
            &&& r is None ==> err is None && e2 == evs && o2.stop_reason == o.stop_reason
                && o2.error_message == o.error_message
        }),
{
    lemma_delta_step(o, evs, ev);
    reveal_strlit("end_turn");
    reveal_strlit("stop_sequence");
    reveal_strlit("pause_turn");
    reveal_strlit("max_tokens");
    reveal_strlit("tool_use");
    reveal_strlit("refusal");
    reveal_strlit("sensitive");
    assert("end_turn"@[0] != "tool_use"@[0]);
    assert("max_tokens"@[0] != "pause_turn"@[0]);
    let d = get_field(get_field(ev, "delta"@), "stop_details"@);
    assert("end_turn"@.len() == 8 && "tool_use"@.len() == 8 && "max_tokens"@.len() == 10);
    assert("refusal"@.len() == 7 && "pause_turn"@.len() == 10 && "stop_sequence"@.len() == 13);
    assert("sensitive"@.len() == 9);
    assert(map_stop_reason_spec("end_turn"@, d) == Ok::<(Seq<char>, Option<Seq<char>>), Seq<char>>(("stop"@, None)));
    assert(map_stop_reason_spec("pause_turn"@, d) == Ok::<(Seq<char>, Option<Seq<char>>), Seq<char>>(("stop"@, None)));
    assert(map_stop_reason_spec("stop_sequence"@, d) == Ok::<(Seq<char>, Option<Seq<char>>), Seq<char>>(("stop"@, None)));
    assert(map_stop_reason_spec("max_tokens"@, d) == Ok::<(Seq<char>, Option<Seq<char>>), Seq<char>>(("length"@, None)));
    assert(map_stop_reason_spec("tool_use"@, d) == Ok::<(Seq<char>, Option<Seq<char>>), Seq<char>>(("toolUse"@, None)));
    assert(map_stop_reason_spec("sensitive"@, d) == Ok::<(Seq<char>, Option<Seq<char>>), Seq<char>>(("error"@, None)));
    assert(map_stop_reason_spec("refusal"@, d) matches Ok((st, Some(_))) && st == "error"@);
}

/// `message_start` sets the usage from `message.usage`: input from
/// `input_tokens`, output from `output_tokens`, cache reads from
/// `cache_read_input_tokens`, cache writes from
/// `cache_creation_input_tokens` (each read as an integer, 0 where absent),
/// and the total as their sum; it adds no block and no event.
pub proof fn law_anthropic_message_start_usage(o: OutputModel, evs: Seq<JsModel>, ev: JsModel)
    requires
        str_or_empty(get_field(ev, "type"@)) == "message_start"@,
    ensures
        ({
            let usage = get_field(get_field(ev, "message"@), "usage"@);
            let (o2, e2, err) = anth_step(o, evs, ev);
            &&& o2.u_input == jint_spec(get_field(usage, "input_tokens"@))
            &&& o2.u_output == jint_spec(get_field(usage, "output_tokens"@))
            &&& o2.u_cache_read == jint_spec(get_field(usage, "cache_read_input_tokens"@))
            &&& o2.u_cache_write == jint_spec(get_field(usage, "cache_creation_input_tokens"@))
            &&& o2.u_total == total_tokens(o2.u_input, o2.u_output, o2.u_cache_read, o2.u_cache_write)
            &&& o2.content == o.content
            &&& o2.stop_reason == o.stop_reason
            &&& e2 == evs
            &&& err is None
        }),
{
    reveal(anth_step);
}

/// A `message_delta` that ends nothing sets each count its `usage` carries
/// as an integer (cache reads from `cache_read_input_tokens`, cache writes
/// from `cache_creation_input_tokens`) and leaves every count it does not
/// carry as it was; the total is the sum of the four.
pub proof fn law_anthropic_delta_usage(o: OutputModel, evs: Seq<JsModel>, ev: JsModel)
    requires
        str_or_empty(get_field(ev, "type"@)) == "message_delta"@,
        anth_step(o, evs, ev).2 is None,
    ensures
        ({
            let usage = get_field(ev, "usage"@);
            let o2 = anth_step(o, evs, ev).0;
            &&& o2.u_input == (match i64_of(get_field(usage, "input_tokens"@)) { Some(x) => x, None => o.u_input })
            &&& o2.u_output == (match i64_of(get_field(usage, "output_tokens"@)) { Some(x) => x, None => o.u_output })
            &&& o2.u_cache_read == (match i64_of(get_field(usage, "cache_read_input_tokens"@)) {
                Some(x) => x,
                None => o.u_cache_read,
            })
            &&& o2.u_cache_write == (match i64_of(get_field(usage, "cache_creation_input_tokens"@)) {
                Some(x) => x,
                None => o.u_cache_write,
            })
            &&& o2.u_total == total_tokens(o2.u_input, o2.u_output, o2.u_cache_read, o2.u_cache_write)
            &&& o2.content == o.content
        }),
{
    lemma_delta_step(o, evs, ev);
}

/// A `message_delta` event goes to `on_message_delta`.
proof fn lemma_delta_step(o: OutputModel, evs: Seq<JsModel>, ev: JsModel)
    requires
        str_or_empty(get_field(ev, "type"@)) == "message_delta"@,
    ensures
        anth_step(o, evs, ev) == (on_message_delta(o, ev).0, evs, on_message_delta(o, ev).1),
{
    reveal(anth_step);
    reveal_strlit("message_start");
    reveal_strlit("message_delta");
    reveal_strlit("content_block_start");
    reveal_strlit("content_block_delta");
    reveal_strlit("content_block_stop");
    assert("message_delta"@[8] != "message_start"@[8]);
    assert("message_delta"@[0] != "content_block_start"@[0]);
    assert("message_delta"@[0] != "content_block_delta"@[0]);
    assert("message_delta"@[0] != "content_block_stop"@[0]);
}

/// The transcript opens with `start` and closes with one terminal event:
/// `error` exactly when the final message's stop reason is `error` (and
/// then it carries an error message), `done` with the stop reason
/// otherwise.  No earlier event is `done` or `error`.
pub proof fn law_anthropic_transcript_ends(yielded: Seq<JsModel>, iterate_error: Option<Seq<char>>, api: Seq<char>, provider: Seq<char>, model: Seq<char>)
    ensures
        ({
            let (o, e) = anthropic_run(yielded, iterate_error, api, provider, model);
            &&& e.len() >= 2
            &&& e[0] == ev_snap("start"@, content_snapshot_spec(Seq::empty()))
            &&& o.stop_reason == "error"@ ==> e.last() == ev_reason("error"@, "error"@, content_snapshot_spec(o.content))
                && o.error_message is Some
            &&& o.stop_reason != "error"@ ==> e.last() == ev_reason("done"@, o.stop_reason, content_snapshot_spec(o.content))
            &&& none_terminal(e.drop_last(), 0)
        }),
{
    let o0 = init_output(api, provider, model);
    let evs0 = seq![ev_snap("start"@, content_snapshot_spec(o0.content))];
    lemma_assemble_prefix(o0, evs0, yielded);
    lemma_assemble_none_terminal(o0, evs0, yielded);
    let (o1, evs1, rt_err) = anth_assemble(o0, evs0, yielded);
    assert(evs1[0] == evs0[0]);
    let start_entries = seq![("type"@, s("start"@)), ("snapshot"@, content_snapshot_spec(o0.content))];
    lemma_event_type(start_entries, "start"@);
    lemma_progress_not_terminal(evs0[0], "start"@);
    let e = anthropic_run(yielded, iterate_error, api, provider, model).1;
    assert(e.drop_last() == evs1);
    reveal_strlit("error");
    reveal_strlit("aborted");
}

/// The block kind a `*_start` event opens.
pub open spec fn start_kind(t: Seq<char>) -> Option<Kind> {
    if t == "text_start"@ {
        Some(Kind::Text)
    } else if t == "thinking_start"@ {
        Some(Kind::Thinking)
    } else if t == "toolcall_start"@ {
        Some(Kind::ToolCall)
    } else {
        None
    }
}

/// The block kind a `*_delta` or `*_end` event belongs to.
pub open spec fn block_event_kind(t: Seq<char>) -> Option<Kind> {
    if t == "text_delta"@ || t == "text_end"@ {
        Some(Kind::Text)
    } else if t == "thinking_delta"@ || t == "thinking_end"@ {
        Some(Kind::Thinking)
    } else if t == "toolcall_delta"@ || t == "toolcall_end"@ {
        Some(Kind::ToolCall)
    } else {
        None
    }
}

pub open spec fn is_start_event(e: JsModel) -> bool {
    event_type(e) matches Some(t) && start_kind(t) is Some
}

/// The `contentIndex` of an event, as an integer.
pub open spec fn event_index(e: JsModel) -> Option<i64> {
    i64_of(get_field(e, "contentIndex"@))
}

/// The number of `*_start` events.
pub open spec fn count_starts(evs: Seq<JsModel>) -> int
    decreases evs.len(),
{
    if evs.len() == 0 {
        0
    } else {
        count_starts(evs.drop_last()) + if is_start_event(evs.last()) { 1int } else { 0int }
    }
}

/// Event `p` names blocks as the content has them: a `*_start` event has
/// as index the number of `*_start` events before it, and that block has
/// the kind it opens; a `*_delta` or `*_end` event names an earlier-opened
/// block of its kind.
pub open spec fn indexed_right(evs: Seq<JsModel>, c: Seq<BlockModel>, p: int) -> bool {
    match event_type(evs[p]) {
        Some(t) => {
            &&& (start_kind(t) matches Some(k) ==> event_index(evs[p]) == Some(count_starts(evs.take(p)) as i64)
                && 0 <= count_starts(evs.take(p)) < c.len() && c[count_starts(evs.take(p))].kind == k)
            &&& (block_event_kind(t) matches Some(k) ==> exists|i: int|
                0 <= i < count_starts(evs.take(p)) && event_index(evs[p]) == Some(i as i64) && #[trigger] c[i].kind
                    == k)
        },
        None => true,
    }
}

/// The content-index invariant: one block per `*_start` event, each event
/// indexed right.
pub open spec fn content_indexed(evs: Seq<JsModel>, c: Seq<BlockModel>) -> bool {
    &&& count_starts(evs) == c.len()
    &&& forall|p: int| 0 <= p < evs.len() ==> #[trigger] indexed_right(evs, c, p)
}

proof fn lemma_event_fields(entries: Seq<(Seq<char>, JsModel)>, ty: Seq<char>, ci: int)
    requires
        entries.len() >= 2,
        entries[0] == ("type"@, s(ty)),
        entries[1] == ("contentIndex"@, n(ci as i64)),
    ensures
        event_type(JsModel::Obj(entries)) == Some(ty),
        event_index(JsModel::Obj(entries)) == Some(ci as i64),
{
    lemma_event_type(entries, ty);
    lemma_key_index(entries, "contentIndex"@);
    reveal_strlit("type");
    reveal_strlit("contentIndex");
    assert("type"@.len() == 4 && "contentIndex"@.len() == 12);
    assert(entries[0].0 != "contentIndex"@);
}

proof fn lemma_not_block_event(e: JsModel, t: Seq<char>)
    requires
        event_type(e) == Some(t),
        t == "start"@ || t == "done"@ || t == "error"@,
    ensures
        start_kind(t) is None,
        block_event_kind(t) is None,
{
    reveal_strlit("start");
    reveal_strlit("done");
    reveal_strlit("error");
    reveal_strlit("text_start");
    reveal_strlit("thinking_start");
    reveal_strlit("toolcall_start");
    reveal_strlit("text_delta");
    reveal_strlit("thinking_delta");
    reveal_strlit("toolcall_delta");
    reveal_strlit("text_end");
    reveal_strlit("thinking_end");
    reveal_strlit("toolcall_end");
    assert(t.len() <= 5);
}

proof fn lemma_kinds_of_types()
    ensures
        start_kind("text_start"@) == Some(Kind::Text),
        start_kind("thinking_start"@) == Some(Kind::Thinking),
        start_kind("toolcall_start"@) == Some(Kind::ToolCall),
        block_event_kind("text_start"@) is None,
        block_event_kind("thinking_start"@) is None,
        block_event_kind("toolcall_start"@) is None,
        start_kind("text_delta"@) is None && block_event_kind("text_delta"@) == Some(Kind::Text),
        start_kind("thinking_delta"@) is None && block_event_kind("thinking_delta"@) == Some(Kind::Thinking),
        start_kind("toolcall_delta"@) is None && block_event_kind("toolcall_delta"@) == Some(Kind::ToolCall),
        start_kind("text_end"@) is None && block_event_kind("text_end"@) == Some(Kind::Text),
        start_kind("thinking_end"@) is None && block_event_kind("thinking_end"@) == Some(Kind::Thinking),
        start_kind("toolcall_end"@) is None && block_event_kind("toolcall_end"@) == Some(Kind::ToolCall),
{
    reveal_strlit("text_start");
    reveal_strlit("thinking_start");
    reveal_strlit("toolcall_start");
    reveal_strlit("text_delta");
    reveal_strlit("thinking_delta");
    reveal_strlit("toolcall_delta");
    reveal_strlit("text_end");
    reveal_strlit("thinking_end");
    reveal_strlit("toolcall_end");
    assert("text_start"@[1] != "text_delta"@[1] || "text_start"@[5] != "text_delta"@[5]);
    assert("thinking_start"@[9] != "thinking_delta"@[9]);
    assert("toolcall_start"@[9] != "toolcall_delta"@[9]);
    assert("text_start"@[0] != "thinking_start"@[1] || "text_start"@.len() != "thinking_start"@.len());
    assert("thinking_start"@[1] != "toolcall_start"@[1]);
    assert("thinking_delta"@[1] != "toolcall_delta"@[1]);
    assert("thinking_end"@[1] != "toolcall_end"@[1]);
}

/// Appending an event keeps what was said of the earlier ones.
proof fn lemma_indexed_push(evs: Seq<JsModel>, e: JsModel, c: Seq<BlockModel>, c2: Seq<BlockModel>)
    requires
        forall|p: int| 0 <= p < evs.len() ==> #[trigger] indexed_right(evs, c, p),
        c.len() <= c2.len(),
        forall|i: int| 0 <= i < c.len() ==> #[trigger] c2[i].kind == c[i].kind,
        count_starts(evs) <= c.len(),
    ensures
        forall|p: int| 0 <= p < evs.len() ==> #[trigger] indexed_right(evs.push(e), c2, p),
{
    let e2 = evs.push(e);
    assert forall|p: int| 0 <= p < evs.len() implies #[trigger] indexed_right(e2, c2, p) by {
        assert(e2[p] == evs[p]);
        assert(e2.take(p) =~= evs.take(p));
        lemma_count_starts_prefix(evs, p);
        assert(indexed_right(evs, c, p));
        match event_type(evs[p]) {
            Some(t) => {
                match block_event_kind(t) {
                    Some(k) => {
                        let i = choose|i: int|
                            0 <= i < count_starts(evs.take(p)) && event_index(evs[p]) == Some(i as i64) && #[trigger] c[i].kind
                                == k;
                        assert(c2[i].kind == c[i].kind);
                    },
                    None => {},
                }
                match start_kind(t) {
                    Some(k) => {
                        let i = count_starts(evs.take(p));
                        assert(c2[i].kind == c[i].kind);
                    },
                    None => {},
                }
            },
            None => {},
        }
    }
}

/// Fewer events have no more `*_start` events.
proof fn lemma_count_starts_prefix(evs: Seq<JsModel>, p: int)
    requires
        0 <= p <= evs.len(),
    ensures
        0 <= count_starts(evs.take(p)) <= count_starts(evs),
    decreases evs.len() - p,
{
    lemma_count_starts_nonneg(evs.take(p));
    if p < evs.len() {
        lemma_count_starts_prefix(evs, p + 1);
        assert(evs.take(p + 1).drop_last() =~= evs.take(p));
    } else {
        assert(evs.take(p) =~= evs);
    }
}

proof fn lemma_count_starts_nonneg(evs: Seq<JsModel>)
    ensures
        count_starts(evs) >= 0,
    decreases evs.len(),
{
    if evs.len() > 0 {
        lemma_count_starts_nonneg(evs.drop_last());
    }
}

/// Appending one event `e` of type `t` that keeps the content-index
/// invariant.
proof fn lemma_indexed_append(
    evs: Seq<JsModel>,
    c: Seq<BlockModel>,
    c2: Seq<BlockModel>,
    entries: Seq<(Seq<char>, JsModel)>,
    t: Seq<char>,
    ci: int,
)
    requires
        content_indexed(evs, c),
        entries.len() >= 2,
        entries[0] == ("type"@, s(t)),
        entries[1] == ("contentIndex"@, n(ci as i64)),
        forall|i: int| 0 <= i < c.len() ==> #[trigger] c2[i].kind == c[i].kind,
        start_kind(t) is Some ==> ci == c.len() && c2.len() == c.len() + 1 && c2[ci].kind == start_kind(t)->0,
        start_kind(t) is None ==> c2.len() == c.len(),
        block_event_kind(t) is Some ==> 0 <= ci < c.len() && c[ci].kind == block_event_kind(t)->0,
    ensures
        content_indexed(evs.push(JsModel::Obj(entries)), c2),
{
    let e = JsModel::Obj(entries);
    let e2 = evs.push(e);
    lemma_event_fields(entries, t, ci);
    lemma_indexed_push(evs, e, c, c2);
    assert(e2.take(evs.len() as int) =~= evs);
    assert(e2.drop_last() =~= evs);
    assert(e2[evs.len() as int] == e);
    if block_event_kind(t) is Some {
        assert(c2[ci].kind == c[ci].kind);
    }
    assert(indexed_right(e2, c2, evs.len() as int));
    assert forall|p: int| 0 <= p < e2.len() implies #[trigger] indexed_right(e2, c2, p) by {
        if p < evs.len() {
        }
    }
}

/// A message event keeps the content-index invariant.
proof fn lemma_step_indexed(o: OutputModel, evs: Seq<JsModel>, ev: JsModel)
    requires
        content_indexed(evs, o.content),
    ensures
        content_indexed(anth_step(o, evs, ev).1, anth_step(o, evs, ev).0.content),
{
    reveal(anth_step);
    lemma_kinds_of_types();
    reveal_strlit("message_start");
    reveal_strlit("message_delta");
    reveal_strlit("content_block_start");
    reveal_strlit("content_block_delta");
    reveal_strlit("content_block_stop");
    reveal_strlit("text");
    reveal_strlit("thinking");
    reveal_strlit("redacted_thinking");
    reveal_strlit("tool_use");
    reveal_strlit("text_delta");
    reveal_strlit("thinking_delta");
    reveal_strlit("input_json_delta");
    reveal_strlit("signature_delta");
    let (o2, e2, _) = anth_step(o, evs, ev);
    let ty = str_or_empty(get_field(ev, "type"@));
    let index = jint_spec(get_field(ev, "index"@));
    if ty == "message_start"@ {
        assert(e2 == evs);
        assert(o2.content == o.content);
    } else if ty == "message_delta"@ {
        assert("message_delta"@[8] != "message_start"@[8]);
        assert(e2 == evs);
        assert(o2.content == o.content);
    } else if ty == "content_block_start"@ {
        let cb = get_field(ev, "content_block"@);
        let t = str_or_empty(get_field(cb, "type"@));
        if e2.len() > evs.len() {
            let ci = o.content.len() as int;
            let (ety, k) = if t == "text"@ {
                ("text_start"@, Kind::Text)
            } else if t == "thinking"@ || t == "redacted_thinking"@ {
                ("thinking_start"@, Kind::Thinking)
            } else {
                ("toolcall_start"@, Kind::ToolCall)
            };
            let snap = content_snapshot_spec(o2.content);
            let entries = seq![("type"@, s(ety)), ("contentIndex"@, n(ci as i64)), ("snapshot"@, snap)];
            assert(e2 == evs.push(JsModel::Obj(entries)));
            assert(o2.content.len() == ci + 1);
            assert(o2.content[ci].kind == k);
            lemma_indexed_append(evs, o.content, o2.content, entries, ety, ci);
        } else {
            assert(e2 == evs && o2 == o);
        }
    } else if ty == "content_block_delta"@ {
        match find_block(o.content, index) {
            None => {},
            Some(i) => {
                lemma_find_block_in(o.content, index);
                if e2.len() > evs.len() {
                    let delta = get_field(ev, "delta"@);
                    let dty = str_or_empty(get_field(delta, "type"@));
                    let b = o.content[i];
                    let snap = content_snapshot_spec(o2.content);
                    let (ety, key) = if dty == "text_delta"@ && b.kind == Kind::Text {
                        ("text_delta"@, "text"@)
                    } else if dty == "thinking_delta"@ && b.kind == Kind::Thinking {
                        ("thinking_delta"@, "thinking"@)
                    } else {
                        ("toolcall_delta"@, "partial_json"@)
                    };
                    let d = str_or_empty(get_field(delta, key));
                    let entries = seq![("type"@, s(ety)), ("contentIndex"@, n(i as i64)), ("delta"@, s(d)), ("snapshot"@, snap)];
                    assert(e2 == evs.push(JsModel::Obj(entries)));
                    assert(o2.content.len() == o.content.len());
                    assert(forall|j: int| 0 <= j < o.content.len() ==> #[trigger] o2.content[j].kind == o.content[j].kind);
                    lemma_indexed_append(evs, o.content, o2.content, entries, ety, i);
                } else {
                    assert(e2 == evs);
                    assert(o2.content.len() == o.content.len());
                    assert(forall|j: int| 0 <= j < o.content.len() ==> #[trigger] o2.content[j].kind == o.content[j].kind);
                    lemma_indexed_same(evs, o.content, o2.content);
                }
            },
        }
    } else if ty == "content_block_stop"@ {
        match find_block(o.content, index) {
            None => {},
            Some(i) => {
                lemma_find_block_in(o.content, index);
                let b = o.content[i];
                let snap = content_snapshot_spec(o2.content);
                let entries = match b.kind {
                    Kind::Text => seq![("type"@, s("text_end"@)), ("contentIndex"@, n(i as i64)), ("content"@, s(b.text)), ("snapshot"@, snap)],
                    Kind::Thinking => seq![("type"@, s("thinking_end"@)), ("contentIndex"@, n(i as i64)), ("content"@, s(b.thinking)), ("snapshot"@, snap)],
                    Kind::ToolCall => seq![("type"@, s("toolcall_end"@)), ("contentIndex"@, n(i as i64)), ("snapshot"@, snap)],
                };
                let ety = match b.kind {
                    Kind::Text => "text_end"@,
                    Kind::Thinking => "thinking_end"@,
                    Kind::ToolCall => "toolcall_end"@,
                };
                assert(e2 == evs.push(JsModel::Obj(entries)));
                assert(o2.content.len() == o.content.len());
                assert(forall|j: int| 0 <= j < o.content.len() ==> #[trigger] o2.content[j].kind == o.content[j].kind);
                lemma_indexed_append(evs, o.content, o2.content, entries, ety, i);
            },
        }
    } else {
        assert(e2 == evs && o2 == o);
    }
}

proof fn lemma_find_block_in(c: Seq<BlockModel>, index: i64)
    ensures
        find_block(c, index) matches Some(i) ==> 0 <= i < c.len(),
    decreases c.len(),
{
    if c.len() > 0 {
        lemma_find_block_in(c.drop_last(), index);
    }
}

/// The same events over blocks of the same kinds keep the invariant.
proof fn lemma_indexed_same(evs: Seq<JsModel>, c: Seq<BlockModel>, c2: Seq<BlockModel>)
    requires
        content_indexed(evs, c),
        c2.len() == c.len(),
        forall|j: int| 0 <= j < c.len() ==> #[trigger] c2[j].kind == c[j].kind,
    ensures
        content_indexed(evs, c2),
{
    assert forall|p: int| 0 <= p < evs.len() implies #[trigger] indexed_right(evs, c2, p) by {
        assert(indexed_right(evs, c, p));
        lemma_count_starts_prefix(evs, p);
        match event_type(evs[p]) {
            Some(t) => {
                match block_event_kind(t) {
                    Some(k) => {
                        let i = choose|i: int|
                            0 <= i < count_starts(evs.take(p)) && event_index(evs[p]) == Some(i as i64) && #[trigger] c[i].kind
                                == k;
                        assert(c2[i].kind == c[i].kind);
                    },
                    None => {},
                }
            },
            None => {},
        }
    }
}

proof fn lemma_assemble_indexed(o: OutputModel, evs: Seq<JsModel>, yielded: Seq<JsModel>)
    requires
        content_indexed(evs, o.content),
    ensures
        content_indexed(anth_assemble(o, evs, yielded).1, anth_assemble(o, evs, yielded).0.content),
    decreases yielded.len(),
{
    if yielded.len() > 0 {
        lemma_assemble_indexed(o, evs, yielded.drop_last());
        let (o2, e2, err) = anth_assemble(o, evs, yielded.drop_last());
        if err is None {
            lemma_step_indexed(o2, e2, yielded.last());
        }
    }
}

/// An event that is neither a `*_start` nor a block event keeps the
/// invariant.
proof fn lemma_indexed_other(evs: Seq<JsModel>, c: Seq<BlockModel>, e: JsModel, t: Seq<char>)
    requires
        content_indexed(evs, c),
        event_type(e) == Some(t),
        t == "start"@ || t == "done"@ || t == "error"@,
    ensures
        content_indexed(evs.push(e), c),
{
    lemma_not_block_event(e, t);
    lemma_indexed_push(evs, e, c, c);
    let e2 = evs.push(e);
    assert(e2.drop_last() =~= evs);
    assert(e2[evs.len() as int] == e);
    assert(indexed_right(e2, c, evs.len() as int));
    assert forall|p: int| 0 <= p < e2.len() implies #[trigger] indexed_right(e2, c, p) by {
        if p < evs.len() {
        }
    }
}

/// Content indices follow the order of the `*_start` events: the `k`-th
/// `*_start` event has index `k`, the final message has one block for each,
/// of the kind it opens; every `*_delta` and `*_end` event names an
/// earlier-opened block of its own kind.
pub proof fn law_anthropic_content_index(yielded: Seq<JsModel>, iterate_error: Option<Seq<char>>, api: Seq<char>, provider: Seq<char>, model: Seq<char>)
    ensures
        content_indexed(
            anthropic_run(yielded, iterate_error, api, provider, model).1,
            anthropic_run(yielded, iterate_error, api, provider, model).0.content,
        ),
{
    let o0 = init_output(api, provider, model);
    let snap0 = content_snapshot_spec(o0.content);
    let start_entries = seq![("type"@, s("start"@)), ("snapshot"@, snap0)];
    let evs0 = seq![ev_snap("start"@, snap0)];
    lemma_event_type(start_entries, "start"@);
    assert(content_indexed(Seq::<JsModel>::empty(), o0.content));
    lemma_indexed_other(Seq::<JsModel>::empty(), o0.content, ev_snap("start"@, snap0), "start"@);
    assert(Seq::<JsModel>::empty().push(ev_snap("start"@, snap0)) == evs0);
    lemma_assemble_indexed(o0, evs0, yielded);
    let (o1, evs1, rt_err) = anth_assemble(o0, evs0, yielded);
    let (o, e) = anthropic_run(yielded, iterate_error, api, provider, model);
    assert(o.content == o1.content);
    let last = e.last();
    assert(e == evs1.push(last));
    match last {
        JsModel::Obj(entries) => {
            let t = entries[0].1->Str_0;
            assert(entries[0] == ("type"@, s(t)));
            lemma_event_type(entries, t);
            lemma_indexed_other(evs1, o1.content, last, t);
        },
        _ => {},
    }
}

/// An `error` server-sent event ends the stream: its data is the error,
/// and no later event is read.
pub proof fn law_anthropic_error_event_ends(sse: Seq<SseEventModel>, k: int)
    requires
        0 <= k < sse.len(),
        sse[k].event == Some("error"@),
        iter_prefix(sse.subrange(0, k)).3 is None,
    ensures
        iterate_spec(sse) == (iter_prefix(sse.subrange(0, k)).0, Some(sse[k].data)),
{
    assert(sse.subrange(0, k + 1).drop_last() =~= sse.subrange(0, k));
    assert(sse.subrange(0, k + 1).last() == sse[k]);
    lemma_iter_prefix_stops(sse, k + 1);
}

} // verus!
