//! The OpenAI chat-completions stream decoder: already-parsed completion
//! chunks in, the normalized transcript out (the ordered assistant-message
//! events and the final message).
//!
//! OpenAI and Ollama share this path.  Events carry no content snapshots
//! here; the event sequence and the settled final message are what the
//! transcript holds.  Tool-call arguments accumulate as text and are parsed
//! with `parse_streaming_json` at every fragment and once more at the end.
//! A thinking block's signature is the name of the field that first carried
//! reasoning text.  All `*_end` events come in one pass after the chunks.

use vstd::prelude::*;
use std::collections::HashMap;
use crate::json::{
    chunk_values_document, parse_chunk_values,
    as_i64, as_str, clone_js, empty_object, get, get_field, i64_of, int_num, is_null, is_object, jint,
    jint_spec, js_num, js_obj, js_str, num_as_i64, num_as_i64_exec, opt_model, str_of, str_val, items_view,
    pairs_view, JsModel, JsNum, JsVal, NumModel,
};
use crate::partial_json::{canonical, canonical_spec, parse_streaming_json, parse_streaming_spec};
use crate::text::{chars_eq, chars_of, push_all, str_eq, string_from_chars};
use crate::anthropic::{event_type, is_progress_type, is_terminal_event, lemma_event_type, lemma_progress_not_terminal, pair2, push_pair, Kind, s, n, opt_entry, opt_num, opt_s, opt_chars, str_or_empty, total_tokens};

verus! {

broadcast use vstd::std_specs::hash::group_hash_axioms;

/// Model of a content block.
#[verifier::ext_equal]
pub struct OBlockModel {
    pub kind: Kind,
    pub text: Seq<char>,
    pub thinking: Seq<char>,
    pub thinking_signature: Seq<char>,
    pub id: Seq<char>,
    pub name: Seq<char>,
    pub partial_args: Seq<char>,
    pub stream_index: Option<i64>,
    pub arguments: JsModel,
}

/// Model of the message being assembled.
#[verifier::ext_equal]
pub struct OOutModel {
    pub content: Seq<OBlockModel>,
    pub api: Seq<char>,
    pub provider: Seq<char>,
    pub model: Seq<char>,
    pub response_id: Option<Seq<char>>,
    pub response_model: Option<Seq<char>>,
    pub u_input: i64,
    pub u_output: i64,
    pub u_cache_read: i64,
    pub u_cache_write: i64,
    pub u_reasoning: Option<i64>,
    pub u_total: i64,
    pub stop_reason: Seq<char>,
    pub error_message: Option<Seq<char>>,
}

/// Model of the decoder state between chunks: the message, the events so
/// far, the text and thinking blocks, the tool-call blocks by stream index
/// and by id, and whether a finish reason was seen.
#[verifier::ext_equal]
pub struct OStateModel {
    pub out: OOutModel,
    pub events: Seq<JsModel>,
    pub text_idx: Option<int>,
    pub thinking_idx: Option<int>,
    pub by_index: Map<i64, int>,
    pub by_id: Seq<(Seq<char>, int)>,
    pub has_finish: bool,
}

pub open spec fn oa_init_out(api: Seq<char>, provider: Seq<char>, model: Seq<char>) -> OOutModel {
    OOutModel {
        content: Seq::empty(),
        api,
        provider,
        model,
        response_id: None,
        response_model: None,
        u_input: 0,
        u_output: 0,
        u_cache_read: 0,
        u_cache_write: 0,
        u_reasoning: None,
        u_total: 0,
        stop_reason: "stop"@,
        error_message: None,
    }
}

pub open spec fn oa_init(api: Seq<char>, provider: Seq<char>, model: Seq<char>) -> OStateModel {
    OStateModel {
        out: oa_init_out(api, provider, model),
        events: seq![JsModel::Obj(seq![("type"@, s("start"@))])],
        text_idx: None,
        thinking_idx: None,
        by_index: Map::empty(),
        by_id: Seq::empty(),
        has_finish: false,
    }
}

/// The value a map holds for `k`, if any.
pub open spec fn map_get(m: Map<i64, int>, k: i64) -> Option<int> {
    if m.contains_key(k) {
        Some(m[k])
    } else {
        None
    }
}

/// The value of the first entry with key `k` of an association list.
pub open spec fn assoc_get<K>(l: Seq<(K, int)>, k: K) -> Option<int>
    decreases l.len(),
{
    if l.len() == 0 {
        None
    } else {
        match assoc_get(l.drop_last(), k) {
            Some(v) => Some(v),
            None => if l.last().0 == k {
                Some(l.last().1)
            } else {
                None
            },
        }
    }
}

/// The index of the first entry with key `k`.
pub open spec fn assoc_pos<K>(l: Seq<(K, int)>, k: K) -> Option<int>
    decreases l.len(),
{
    if l.len() == 0 {
        None
    } else {
        match assoc_pos(l.drop_last(), k) {
            Some(v) => Some(v),
            None => if l.last().0 == k {
                Some(l.len() - 1)
            } else {
                None
            },
        }
    }
}

/// `map.insert(k, v)` on an association list.
pub open spec fn assoc_put<K>(l: Seq<(K, int)>, k: K, v: int) -> Seq<(K, int)> {
    match assoc_pos(l, k) {
        Some(i) => l.update(i, (k, v)),
        None => l.push((k, v)),
    }
}

// Event objects (no snapshots on this path).
pub open spec fn oev(ty: Seq<char>) -> JsModel {
    JsModel::Obj(seq![("type"@, s(ty))])
}

pub open spec fn oev_ci(ty: Seq<char>, ci: int) -> JsModel {
    JsModel::Obj(seq![("type"@, s(ty)), ("contentIndex"@, n(ci as i64))])
}

pub open spec fn oev_ci_text(ty: Seq<char>, ci: int, key: Seq<char>, text: Seq<char>) -> JsModel {
    JsModel::Obj(seq![("type"@, s(ty)), ("contentIndex"@, n(ci as i64)), (key, s(text))])
}

pub open spec fn oev_reason(ty: Seq<char>, reason: Seq<char>) -> JsModel {
    JsModel::Obj(seq![("type"@, s(ty)), ("reason"@, s(reason))])
}

pub open spec fn oblock(kind: Kind) -> OBlockModel {
    OBlockModel {
        kind,
        text: Seq::empty(),
        thinking: Seq::empty(),
        thinking_signature: Seq::empty(),
        id: Seq::empty(),
        name: Seq::empty(),
        partial_args: Seq::empty(),
        stream_index: None,
        arguments: JsModel::Obj(Seq::empty()),
    }
}

/// A content block of the final message.
pub open spec fn oblock_json(b: OBlockModel) -> JsModel {
    match b.kind {
        Kind::Text => JsModel::Obj(seq![("type"@, s("text"@)), ("text"@, s(b.text))]),
        Kind::Thinking => JsModel::Obj(
            seq![
                ("type"@, s("thinking"@)),
                ("thinking"@, s(b.thinking)),
                ("thinkingSignature"@, s(b.thinking_signature)),
            ],
        ),
        Kind::ToolCall => JsModel::Obj(
            seq![
                ("type"@, s("toolCall"@)),
                ("id"@, s(b.id)),
                ("name"@, s(b.name)),
                ("arguments"@, b.arguments),
            ],
        ),
    }
}

pub open spec fn oa_usage_json(o: OOutModel) -> JsModel {
    JsModel::Obj(
        seq![
            ("input"@, n(o.u_input)),
            ("output"@, n(o.u_output)),
            ("cacheRead"@, n(o.u_cache_read)),
            ("cacheWrite"@, n(o.u_cache_write)),
        ] + opt_entry("reasoning"@, opt_num(o.u_reasoning)) + seq![("totalTokens"@, n(o.u_total))],
    )
}

/// The settled final message.
pub open spec fn oa_final_json(o: OOutModel) -> JsModel {
    JsModel::Obj(
        seq![
            ("role"@, s("assistant"@)),
            ("api"@, s(o.api)),
            ("provider"@, s(o.provider)),
            ("model"@, s(o.model)),
        ] + opt_entry("responseId"@, opt_s(o.response_id)) + opt_entry(
            "responseModel"@,
            opt_s(o.response_model),
        ) + seq![
            ("content"@, JsModel::Arr(o.content.map_values(|b: OBlockModel| oblock_json(b)))),
            ("usage"@, oa_usage_json(o)),
            ("stopReason"@, s(o.stop_reason)),
        ] + opt_entry("errorMessage"@, opt_s(o.error_message)),
    )
}


// ---------------------------------------------------------------------------
// The per-chunk step
// ---------------------------------------------------------------------------

/// The stop reason and error message for a finish reason.
pub open spec fn oa_map_stop(reason: Seq<char>) -> (Seq<char>, Option<Seq<char>>) {
    if reason == "stop"@ || reason == "end"@ {
        ("stop"@, None)
    } else if reason == "length"@ {
        ("length"@, None)
    } else if reason == "function_call"@ || reason == "tool_calls"@ {
        ("toolUse"@, None)
    } else {
        ("error"@, Some("Provider finish_reason: "@ + reason))
    }
}

/// The usage counts of a `usage` object: cached tokens come from `prompt_tokens_details.cached_tokens`
/// when it is a number (a present 0 counts), else from
/// `prompt_cache_hit_tokens`, else 0; input is the prompt less the cached
/// and written tokens, at least 0.
pub open spec fn oa_apply_usage(o: OOutModel, raw: JsModel) -> OOutModel {
    let details = get_field(raw, "prompt_tokens_details"@);
    let prompt = jint_spec(get_field(raw, "prompt_tokens"@));
    let cache_read = match num_as_i64(get_field(details, "cached_tokens"@)) {
        Some(x) => x,
        None => match num_as_i64(get_field(raw, "prompt_cache_hit_tokens"@)) {
            Some(x) => x,
            None => 0,
        },
    };
    let cache_write = jint_spec(get_field(details, "cache_write_tokens"@));
    let diff = prompt.wrapping_sub(cache_read).wrapping_sub(cache_write);
    let input = if diff < 0 { 0 } else { diff };
    let output = jint_spec(get_field(raw, "completion_tokens"@));
    let reasoning = jint_spec(get_field(get_field(raw, "completion_tokens_details"@), "reasoning_tokens"@));
    OOutModel {
        u_input: input,
        u_output: output,
        u_cache_read: cache_read,
        u_cache_write: cache_write,
        u_reasoning: Some(reasoning),
        u_total: total_tokens(input, output, cache_read, cache_write),
        ..o
    }
}

pub open spec fn falsy(o: Option<Seq<char>>) -> bool {
    match o {
        None => true,
        Some(x) => x.len() == 0,
    }
}

/// A non-empty string value.
pub open spec fn nonempty_str(v: JsModel) -> Option<Seq<char>> {
    match str_of(v) {
        Some(x) => if x.len() > 0 {
            Some(x)
        } else {
            None
        },
        None => None,
    }
}

/// The chunk-level fields: the chunk's id while the message has no
/// (or an empty) response id, the chunk's model name while the message has
/// no (or an empty) response model and the name differs from the requested
/// one, and the usage.
pub open spec fn oa_header(o: OOutModel, chunk: JsModel) -> OOutModel {
    let o1 = if falsy(o.response_id) {
        OOutModel { response_id: str_of(get_field(chunk, "id"@)), ..o }
    } else {
        o
    };
    let o2 = match nonempty_str(get_field(chunk, "model"@)) {
        Some(cm) => if cm != o1.model && falsy(o1.response_model) {
            OOutModel { response_model: Some(cm), ..o1 }
        } else {
            o1
        },
        None => o1,
    };
    if get_field(chunk, "usage"@) is Obj {
        oa_apply_usage(o2, get_field(chunk, "usage"@))
    } else {
        o2
    }
}

/// The first choice of a chunk, unless it is missing or `null`.
pub open spec fn oa_choice(chunk: JsModel) -> Option<JsModel> {
    match get_field(chunk, "choices"@) {
        JsModel::Arr(a) => if a.len() > 0 && !(a[0] is Null) {
            Some(a[0])
        } else {
            None
        },
        _ => None,
    }
}

pub open spec fn with_out(st: OStateModel, o: OOutModel) -> OStateModel {
    OStateModel { out: o, ..st }
}

pub open spec fn push_block(st: OStateModel, b: OBlockModel) -> OStateModel {
    OStateModel { out: OOutModel { content: st.out.content.push(b), ..st.out }, ..st }
}

pub open spec fn set_oblock(st: OStateModel, i: int, b: OBlockModel) -> OStateModel {
    OStateModel { out: OOutModel { content: st.out.content.update(i, b), ..st.out }, ..st }
}

pub open spec fn emit(st: OStateModel, e: JsModel) -> OStateModel {
    OStateModel { events: st.events.push(e), ..st }
}

/// The text block, created (with its `text_start` event) on first use.
pub open spec fn ensure_text(st: OStateModel) -> (OStateModel, int) {
    match st.text_idx {
        Some(i) => (st, i),
        None => {
            let i = st.out.content.len() as int;
            let st2 = emit(push_block(st, oblock(Kind::Text)), oev_ci("text_start"@, i));
            (OStateModel { text_idx: Some(i), ..st2 }, i)
        },
    }
}

/// The thinking block, created (with its `thinking_start` event and the
/// given signature) on first use.
pub open spec fn ensure_thinking(st: OStateModel, sig: Seq<char>) -> (OStateModel, int) {
    match st.thinking_idx {
        Some(i) => (st, i),
        None => {
            let i = st.out.content.len() as int;
            let st2 = emit(
                push_block(st, OBlockModel { thinking_signature: sig, ..oblock(Kind::Thinking) }),
                oev_ci("thinking_start"@, i),
            );
            (OStateModel { thinking_idx: Some(i), ..st2 }, i)
        },
    }
}

/// The stream index of a tool-call fragment (`tc.index.as_i64()`).
pub open spec fn tc_index(tc: JsModel) -> Option<i64> {
    i64_of(get_field(tc, "index"@))
}

/// The id of a tool-call fragment, when it is a non-empty string.
pub open spec fn tc_id(tc: JsModel) -> Option<Seq<char>> {
    nonempty_str(get_field(tc, "id"@))
}

/// The known block of a tool-call fragment: by stream index, else by id.
pub open spec fn tool_lookup(st: OStateModel, tc: JsModel) -> Option<int> {
    let by_index = match tc_index(tc) {
        Some(x) => map_get(st.by_index, x),
        None => None,
    };
    match by_index {
        Some(p) => Some(p),
        None => match tc_id(tc) {
            Some(id) => assoc_get(st.by_id, id),
            None => None,
        },
    }
}

/// A new tool-call block at the end of the content, entered in both
/// lookups, with its `toolcall_start` event.
pub open spec fn tool_create(st: OStateModel, tc: JsModel) -> OStateModel {
    let si = tc_index(tc);
    let id0 = match tc_id(tc) {
        Some(x) => x,
        None => Seq::empty(),
    };
    let name0 = match nonempty_str(get_field(get_field(tc, "function"@), "name"@)) {
        Some(x) => x,
        None => Seq::empty(),
    };
    let p = st.out.content.len() as int;
    let st_a = push_block(st, OBlockModel { id: id0, name: name0, stream_index: si, ..oblock(Kind::ToolCall) });
    let st_b = match si {
        Some(x) => OStateModel { by_index: st_a.by_index.insert(x, p), ..st_a },
        None => st_a,
    };
    let st_c = match tc_id(tc) {
        Some(id) => OStateModel { by_id: assoc_put(st_b.by_id, id, p), ..st_b },
        None => st_b,
    };
    emit(st_c, oev_ci("toolcall_start"@, p))
}

/// The lookups filled in for block `p`: its stream index when it had none,
/// and its id.
pub open spec fn tool_backfill(st: OStateModel, p: int, tc: JsModel) -> OStateModel {
    let st1 = match tc_index(tc) {
        Some(x) => if 0 <= p < st.out.content.len() && st.out.content[p].stream_index is None {
            OStateModel {
                by_index: st.by_index.insert(x, p),
                ..set_oblock(st, p, OBlockModel { stream_index: Some(x), ..st.out.content[p] })
            }
        } else {
            st
        },
        None => st,
    };
    match tc_id(tc) {
        Some(id) => OStateModel { by_id: assoc_put(st1.by_id, id, p), ..st1 },
        None => st1,
    }
}

/// The block of a tool-call fragment, found by
/// stream index, else by id, else created; both lookups are filled in.
pub open spec fn ensure_tool(st: OStateModel, tc: JsModel) -> (OStateModel, int) {
    match tool_lookup(st, tc) {
        Some(p) => (tool_backfill(st, p, tc), p),
        None => {
            let p = st.out.content.len() as int;
            (tool_backfill(tool_create(st, tc), p, tc), p)
        },
    }
}

/// One tool-call fragment: its block, a late id and name filled in once,
/// argument text appended and parsed, and a `toolcall_delta` event.
pub open spec fn tool_call_step(st: OStateModel, tc: JsModel) -> OStateModel {
    let (st1, pos) = ensure_tool(st, tc);
    if !(0 <= pos < st1.out.content.len()) {
        st1
    } else {
        let b0 = st1.out.content[pos];
        let (b1, by_id) = match tc_id(tc) {
            Some(id) => if b0.id.len() == 0 {
                (OBlockModel { id, ..b0 }, assoc_put(st1.by_id, id, pos))
            } else {
                (b0, st1.by_id)
            },
            None => (b0, st1.by_id),
        };
        let b2 = match nonempty_str(get_field(get_field(tc, "function"@), "name"@)) {
            Some(nm) => if b1.name.len() == 0 {
                OBlockModel { name: nm, ..b1 }
            } else {
                b1
            },
            None => b1,
        };
        let (b3, d) = match nonempty_str(get_field(get_field(tc, "function"@), "arguments"@)) {
            Some(args) => {
                let pa = b2.partial_args + args;
                (OBlockModel { partial_args: pa, arguments: parse_streaming_spec(pa), ..b2 }, args)
            },
            None => (b2, Seq::empty()),
        };
        let st2 = OStateModel { by_id, ..set_oblock(st1, pos, b3) };
        emit(st2, oev_ci_text("toolcall_delta"@, pos, "delta"@, d))
    }
}

/// The tool-call fragments of a delta, in order.
pub open spec fn tool_calls_fold(st: OStateModel, tcs: Seq<JsModel>) -> OStateModel
    decreases tcs.len(),
{
    if tcs.len() == 0 {
        st
    } else {
        tool_call_step(tool_calls_fold(st, tcs.drop_last()), tcs.last())
    }
}

/// The reasoning text of a delta: the first non-empty of
/// `reasoning_content`, `reasoning`, `reasoning_text`, with the field's name.
pub open spec fn reasoning_of(delta: JsModel) -> Option<(Seq<char>, Seq<char>)> {
    match nonempty_str(get_field(delta, "reasoning_content"@)) {
        Some(v) => Some(("reasoning_content"@, v)),
        None => match nonempty_str(get_field(delta, "reasoning"@)) {
            Some(v) => Some(("reasoning"@, v)),
            None => match nonempty_str(get_field(delta, "reasoning_text"@)) {
                Some(v) => Some(("reasoning_text"@, v)),
                None => None,
            },
        },
    }
}

/// A delta: content text, then reasoning text, then tool-call fragments.
pub open spec fn delta_step(st: OStateModel, delta: JsModel) -> OStateModel {
    let st1 = match nonempty_str(get_field(delta, "content"@)) {
        Some(c) => {
            let (sa, i) = ensure_text(st);
            if 0 <= i < sa.out.content.len() {
                let b = sa.out.content[i];
                emit(set_oblock(sa, i, OBlockModel { text: b.text + c, ..b }), oev_ci_text("text_delta"@, i, "delta"@, c))
            } else {
                sa
            }
        },
        None => st,
    };
    let st2 = match reasoning_of(delta) {
        Some((field, val)) => {
            let (sa, i) = ensure_thinking(st1, field);
            if 0 <= i < sa.out.content.len() {
                let b = sa.out.content[i];
                emit(set_oblock(sa, i, OBlockModel { thinking: b.thinking + val, ..b }), oev_ci_text("thinking_delta"@, i, "delta"@, val))
            } else {
                sa
            }
        },
        None => st1,
    };
    match get_field(delta, "tool_calls"@) {
        JsModel::Arr(tcs) => tool_calls_fold(st2, tcs),
        _ => st2,
    }
}

/// One chunk.  Chunks that are not objects are skipped; then the
/// chunk-level fields; a chunk without a first choice ends there; the
/// choice's usage when the chunk has none; the finish reason; the delta.
#[verifier::opaque]
pub open spec fn chunk_step(st: OStateModel, chunk: JsModel) -> OStateModel {
    if !(chunk is Obj) {
        st
    } else {
        let st1 = with_out(st, oa_header(st.out, chunk));
        match oa_choice(chunk) {
            None => st1,
            Some(choice) => {
                let st2 = if !(get_field(chunk, "usage"@) is Obj) && get_field(choice, "usage"@) is Obj {
                    with_out(st1, oa_apply_usage(st1.out, get_field(choice, "usage"@)))
                } else {
                    st1
                };
                let st3 = match nonempty_str(get_field(choice, "finish_reason"@)) {
                    Some(reason) => {
                        let (stop, err) = oa_map_stop(reason);
                        OStateModel {
                            has_finish: true,
                            ..with_out(st2, OOutModel {
                                stop_reason: stop,
                                error_message: match err {
                                    Some(m) => Some(m),
                                    None => st2.out.error_message,
                                },
                                ..st2.out
                            })
                        }
                    },
                    None => st2,
                };
                if get_field(choice, "delta"@) is Obj {
                    delta_step(st3, get_field(choice, "delta"@))
                } else {
                    st3
                }
            },
        }
    }
}

/// The chunks, in order.
pub open spec fn chunks_fold(st: OStateModel, chunks: Seq<JsModel>) -> OStateModel
    decreases chunks.len(),
{
    if chunks.len() == 0 {
        st
    } else {
        chunk_step(chunks_fold(st, chunks.drop_last()), chunks.last())
    }
}

/// The `*_end` events of blocks `0..k`, in order; a tool call's arguments
/// parsed once more from their text.
pub open spec fn finish_blocks(o: OOutModel, evs: Seq<JsModel>, k: int) -> (OOutModel, Seq<JsModel>)
    decreases k,
{
    if k <= 0 || k > o.content.len() {
        (o, evs)
    } else {
        let (o1, e1) = finish_blocks(o, evs, k - 1);
        let i = k - 1;
        let b = o1.content[i];
        match b.kind {
            Kind::Text => (o1, e1.push(oev_ci_text("text_end"@, i, "content"@, b.text))),
            Kind::Thinking => (o1, e1.push(oev_ci_text("thinking_end"@, i, "content"@, b.thinking))),
            Kind::ToolCall => (
                OOutModel { content: o1.content.update(i, OBlockModel { arguments: parse_streaming_spec(b.partial_args), ..b }), ..o1 },
                e1.push(oev_ci("toolcall_end"@, i)),
            ),
        }
    }
}

/// The message and the events after a sequence of completion chunks:
/// `start`, the events of the chunks, the `*_end` events, then `error` (an
/// error stop reason, or no finish reason at all) or `done`.
pub open spec fn openai_run(chunks: Seq<JsModel>, api: Seq<char>, provider: Seq<char>, model: Seq<char>) -> (OOutModel, Seq<JsModel>) {
    let st = chunks_fold(oa_init(api, provider, model), chunks);
    let (o1, e1) = finish_blocks(st.out, st.events, st.out.content.len() as int);
    let terminal = if o1.stop_reason == "error"@ {
        Some(match o1.error_message {
            Some(m) => m,
            None => "Provider returned an error stop reason"@,
        })
    } else if !st.has_finish {
        Some("Stream ended without finish_reason"@)
    } else {
        None
    };
    match terminal {
        Some(m) => (
            OOutModel { stop_reason: "error"@, error_message: Some(m), ..o1 },
            e1.push(oev_reason("error"@, "error"@)),
        ),
        None => (o1, e1.push(oev_reason("done"@, o1.stop_reason))),
    }
}

/// The transcript of a sequence of completion chunks: the events and the
/// final message.
pub open spec fn decode_openai_spec(chunks: Seq<JsModel>, api: Seq<char>, provider: Seq<char>, model: Seq<char>) -> JsModel {
    let (o, e) = openai_run(chunks, api, provider, model);
    JsModel::Obj(seq![("events"@, JsModel::Arr(e)), ("final"@, oa_final_json(o))])
}


// ---------------------------------------------------------------------------
// Execution: lookups
// ---------------------------------------------------------------------------

pub proof fn lemma_assoc<K>(l: Seq<(K, int)>, k: K)
    ensures
        assoc_pos(l, k) matches Some(i) ==> 0 <= i < l.len() && l[i].0 == k && forall|j: int|
            0 <= j < i ==> l[j].0 != k,
        assoc_pos(l, k) is None ==> forall|j: int| 0 <= j < l.len() ==> l[j].0 != k,
        assoc_get(l, k) == (match assoc_pos(l, k) {
            Some(i) => Some(l[i].1),
            None => None,
        }),
    decreases l.len(),
{
    if l.len() > 0 {
        let init = l.drop_last();
        lemma_assoc(init, k);
        assert forall|j: int| 0 <= j < init.len() implies init[j] == l[j] by {}
    }
}

/// The stream-index lookup with its positions taken as integers.
pub open spec fn idx_view(m: Map<i64, usize>) -> Map<i64, int> {
    Map::new(|k: i64| m.contains_key(k), |k: i64| m[k] as int)
}

pub open spec fn id_view(l: Seq<(Vec<char>, usize)>) -> Seq<(Seq<char>, int)> {
    l.map_values(|p: (Vec<char>, usize)| (p.0@, p.1 as int))
}

fn id_pos(l: &Vec<(Vec<char>, usize)>, k: &[char]) -> (r: Option<usize>)
    ensures
        match r {
            Some(i) => assoc_pos(id_view(l@), k@) == Some(i as int) && i < l@.len(),
            None => assoc_pos(id_view(l@), k@) is None,
        },
{
    let ghost v = id_view(l@);
    proof {
        lemma_assoc(v, k@);
    }
    let mut i: usize = 0;
    while i < l.len()
        invariant
            v == id_view(l@),
            i <= l@.len(),
            forall|j: int| 0 <= j < i ==> v[j].0 != k@,
        decreases l.len() - i,
    {
        if chars_eq(l[i].0.as_slice(), k) {
            assert(v[i as int].0 == k@);
            proof {
                lemma_assoc(v, k@);
            }
            return Some(i);
        }
        i += 1;
    }
    None
}

fn idx_get(m: &HashMap<i64, usize>, k: i64) -> (r: Option<usize>)
    ensures
        opt_usize(r) == map_get(idx_view(m@), k),
        r matches Some(x) ==> m@.contains_key(k) && m@[k] == x,
{
    match m.get(&k) {
        Some(v) => Some(*v),
        None => None,
    }
}

fn id_get(l: &Vec<(Vec<char>, usize)>, k: &[char]) -> (r: Option<usize>)
    ensures
        match r {
            Some(x) => assoc_get(id_view(l@), k@) == Some(x as int),
            None => assoc_get(id_view(l@), k@) is None,
        },
        r matches Some(x) ==> exists|j: int| 0 <= j < l@.len() && l@[j].1 == x,
{
    proof {
        lemma_assoc(id_view(l@), k@);
    }
    match id_pos(l, k) {
        Some(i) => {
            assert(l@[i as int].1 == l[i as int].1);
            Some(l[i].1)
        },
        None => None,
    }
}

fn idx_put(m: &mut HashMap<i64, usize>, k: i64, v: usize)
    ensures
        final(m)@ == old(m)@.insert(k, v),
        idx_view(final(m)@) == idx_view(old(m)@).insert(k, v as int),
{
    m.insert(k, v);
    assert(idx_view(m@) =~= idx_view(old(m)@).insert(k, v as int));
}

fn id_put(l: &mut Vec<(Vec<char>, usize)>, k: &[char], v: usize)
    ensures
        id_view(final(l)@) == assoc_put(id_view(old(l)@), k@, v as int),
        forall|j: int| 0 <= j < final(l)@.len() ==> final(l)@[j].1 == v || exists|m: int| 0 <= m < old(l)@.len() && final(l)@[j].1 == old(l)@[m].1,
{
    let kv = crate::text::chars_range(k, 0, k.len());
    assert(k@.subrange(0, k@.len() as int) =~= k@);
    match id_pos(l, k) {
        Some(i) => {
            l.set(i, (kv, v));
            assert(id_view(l@) =~= id_view(old(l)@).update(i as int, (k@, v as int)));
            assert forall|j: int| 0 <= j < l@.len() implies l@[j].1 == v || exists|m: int| 0 <= m < old(l)@.len() && l@[j].1 == old(l)@[m].1 by {
                if j != i {
                    assert(l@[j] == old(l)@[j]);
                }
            }
        },
        None => {
            l.push((kv, v));
            assert(id_view(l@) =~= id_view(old(l)@).push((k@, v as int)));
            assert forall|j: int| 0 <= j < l@.len() implies l@[j].1 == v || exists|m: int| 0 <= m < old(l)@.len() && l@[j].1 == old(l)@[m].1 by {
                if j < old(l)@.len() {
                    assert(l@[j] == old(l)@[j]);
                }
            }
        },
    }
}


// ---------------------------------------------------------------------------
// Execution: the message
// ---------------------------------------------------------------------------

struct OBlock {
    kind: Kind,
    text: Vec<char>,
    thinking: Vec<char>,
    thinking_signature: Vec<char>,
    id: Vec<char>,
    name: Vec<char>,
    partial_args: Vec<char>,
    stream_index: Option<i64>,
    arguments: JsVal,
}

impl OBlock {
    spec fn model(&self) -> OBlockModel {
        OBlockModel {
            kind: self.kind,
            text: self.text@,
            thinking: self.thinking@,
            thinking_signature: self.thinking_signature@,
            id: self.id@,
            name: self.name@,
            partial_args: self.partial_args@,
            stream_index: self.stream_index,
            arguments: self.arguments@,
        }
    }

    fn new(kind: Kind) -> (b: OBlock)
        ensures
            b.model() == oblock(kind),
    {
        let b = OBlock {
            kind,
            text: Vec::new(),
            thinking: Vec::new(),
            thinking_signature: Vec::new(),
            id: Vec::new(),
            name: Vec::new(),
            partial_args: Vec::new(),
            stream_index: None,
            arguments: empty_object(),
        };
        assert(b.model() =~= oblock(kind));
        b
    }
}

spec fn oblocks_model(c: Seq<OBlock>) -> Seq<OBlockModel> {
    c.map_values(|b: OBlock| b.model())
}

struct OOut {
    content: Vec<OBlock>,
    api: String,
    provider: String,
    model: String,
    response_id: Option<String>,
    response_model: Option<String>,
    u_input: i64,
    u_output: i64,
    u_cache_read: i64,
    u_cache_write: i64,
    u_reasoning: Option<i64>,
    u_total: i64,
    stop_reason: String,
    error_message: Option<String>,
}

impl OOut {
    spec fn model(&self) -> OOutModel {
        OOutModel {
            content: oblocks_model(self.content@),
            api: self.api@,
            provider: self.provider@,
            model: self.model@,
            response_id: opt_chars(self.response_id),
            response_model: opt_chars(self.response_model),
            u_input: self.u_input,
            u_output: self.u_output,
            u_cache_read: self.u_cache_read,
            u_cache_write: self.u_cache_write,
            u_reasoning: self.u_reasoning,
            u_total: self.u_total,
            stop_reason: self.stop_reason@,
            error_message: opt_chars(self.error_message),
        }
    }
}

struct OState {
    out: OOut,
    events: Vec<JsVal>,
    text_idx: Option<usize>,
    thinking_idx: Option<usize>,
    by_index: HashMap<i64, usize>,
    by_id: Vec<(Vec<char>, usize)>,
    has_finish: bool,
}

pub open spec fn opt_usize(o: Option<usize>) -> Option<int> {
    match o {
        Some(x) => Some(x as int),
        None => None,
    }
}

impl OState {
    spec fn model(&self) -> OStateModel {
        OStateModel {
            out: self.out.model(),
            events: items_view(self.events@),
            text_idx: opt_usize(self.text_idx),
            thinking_idx: opt_usize(self.thinking_idx),
            by_index: idx_view(self.by_index@),
            by_id: id_view(self.by_id@),
            has_finish: self.has_finish,
        }
    }

    /// Every remembered position is a block.
    spec fn wf(&self) -> bool {
        let len = self.out.content@.len();
        &&& (self.text_idx matches Some(i) ==> i < len)
        &&& (self.thinking_idx matches Some(i) ==> i < len)
        &&& forall|k: i64| #[trigger] self.by_index@.contains_key(k) ==> self.by_index@[k] < len
        &&& forall|j: int| 0 <= j < self.by_id@.len() ==> self.by_id@[j].1 < len
    }

    fn take_block(&mut self, i: usize) -> (b: OBlock)
        requires
            i < old(self).out.content@.len(),
        ensures
            b == old(self).out.content@[i as int],
            final(self).out.content@ == old(self).out.content@.remove(i as int),
            final(self).model() == (OStateModel {
                out: OOutModel { content: oblocks_model(old(self).out.content@.remove(i as int)), ..old(self).out.model() },
                ..old(self).model()
            }),
            final(self).text_idx == old(self).text_idx,
            final(self).thinking_idx == old(self).thinking_idx,
            final(self).by_index == old(self).by_index,
            final(self).by_id == old(self).by_id,
    {
        let b = self.out.content.remove(i);
        assert(self.model() =~= (OStateModel {
                out: OOutModel { content: oblocks_model(old(self).out.content@.remove(i as int)), ..old(self).out.model() },
                ..old(self).model()
            }));
        b
    }

    fn put_block(&mut self, i: usize, b: OBlock)
        requires
            i <= old(self).out.content@.len(),
        ensures
            final(self).out.content@ == old(self).out.content@.insert(i as int, b),
            final(self).model() == (OStateModel {
                out: OOutModel { content: oblocks_model(old(self).out.content@.insert(i as int, b)), ..old(self).out.model() },
                ..old(self).model()
            }),
            final(self).text_idx == old(self).text_idx,
            final(self).thinking_idx == old(self).thinking_idx,
            final(self).by_index == old(self).by_index,
            final(self).by_id == old(self).by_id,
    {
        self.out.content.insert(i, b);
        assert(self.model() =~= (OStateModel {
                out: OOutModel { content: oblocks_model(old(self).out.content@.insert(i as int, b)), ..old(self).out.model() },
                ..old(self).model()
            }));
    }

    fn emit(&mut self, e: JsVal)
        ensures
            final(self).model() == emit(old(self).model(), e@),
            final(self).out == old(self).out,
            final(self).text_idx == old(self).text_idx,
            final(self).thinking_idx == old(self).thinking_idx,
            final(self).by_index == old(self).by_index,
            final(self).by_id == old(self).by_id,
    {
        let ghost prev = self.events@;
        self.events.push(e);
        assert(self.events@.drop_last() == prev);
        assert(self.model() =~= emit(old(self).model(), e@));
    }
}

proof fn lemma_replace_oblock(c: Seq<OBlock>, i: int, b: OBlock)
    requires
        0 <= i < c.len(),
    ensures
        oblocks_model(c.remove(i).insert(i, b)) == oblocks_model(c).update(i, b.model()),
{
    assert(oblocks_model(c.remove(i).insert(i, b)) =~= oblocks_model(c).update(i, b.model()));
}

fn oev_ci_exec(ty: &str, ci: usize) -> (r: JsVal)
    ensures
        r@ == oev_ci(ty@, ci as int),
{
    let mut pairs: Vec<(&str, JsVal)> = Vec::new();
    pairs.push(("type", js_str(ty)));
    pairs.push(("contentIndex", js_num(ci as i64)));
    assert(pairs_view(pairs@) =~= seq![("type"@, s(ty@)), ("contentIndex"@, n(ci as i64))]);
    js_obj(pairs)
}

fn oev_ci_text_exec(ty: &str, ci: usize, key: &str, text: &[char]) -> (r: JsVal)
    ensures
        r@ == oev_ci_text(ty@, ci as int, key@, text@),
{
    let mut pairs: Vec<(&str, JsVal)> = Vec::new();
    pairs.push(("type", js_str(ty)));
    pairs.push(("contentIndex", js_num(ci as i64)));
    pairs.push((key, str_val(text)));
    assert(pairs_view(pairs@) =~= seq![("type"@, s(ty@)), ("contentIndex"@, n(ci as i64)), (key@, s(text@))]);
    js_obj(pairs)
}

fn oev_reason_exec(ty: &str, reason: &str) -> (r: JsVal)
    ensures
        r@ == oev_reason(ty@, reason@),
{
    let mut pairs: Vec<(&str, JsVal)> = Vec::new();
    pairs.push(("type", js_str(ty)));
    pairs.push(("reason", js_str(reason)));
    assert(pairs_view(pairs@) =~= seq![("type"@, s(ty@)), ("reason"@, s(reason@))]);
    js_obj(pairs)
}


// ---------------------------------------------------------------------------
// Execution: the steps
// ---------------------------------------------------------------------------

/// A non-empty string value.
fn nonempty<'a>(v: Option<&'a JsVal>) -> (r: Option<&'a str>)
    ensures
        crate::json::opt_str_view(r) == nonempty_str(opt_model(v)),
{
    match as_str(v) {
        Some(x) => if x.is_empty() {
            None
        } else {
            Some(x)
        },
        None => None,
    }
}

fn opt_string(v: Option<&JsVal>) -> (r: Option<String>)
    ensures
        opt_chars(r) == str_of(opt_model(v)),
{
    match as_str(v) {
        Some(x) => Some(x.to_string()),
        None => None,
    }
}

fn apply_usage(out: &mut OOut, raw: Option<&JsVal>)
    ensures
        final(out).model() == oa_apply_usage(old(out).model(), opt_model(raw)),
        final(out).content == old(out).content,
{
    let details = get(raw, "prompt_tokens_details");
    let prompt = jint(get(raw, "prompt_tokens"));
    let cache_read = match num_as_i64_exec(get(details, "cached_tokens")) {
        Some(x) => x,
        None => match num_as_i64_exec(get(raw, "prompt_cache_hit_tokens")) {
            Some(x) => x,
            None => 0,
        },
    };
    let cache_write = jint(get(details, "cache_write_tokens"));
    let diff = prompt.wrapping_sub(cache_read).wrapping_sub(cache_write);
    let input = if diff < 0 { 0 } else { diff };
    let output = jint(get(raw, "completion_tokens"));
    let reasoning = jint(get(get(raw, "completion_tokens_details"), "reasoning_tokens"));
    out.u_input = input;
    out.u_output = output;
    out.u_cache_read = cache_read;
    out.u_cache_write = cache_write;
    out.u_reasoning = Some(reasoning);
    out.u_total = input.wrapping_add(output).wrapping_add(cache_read).wrapping_add(cache_write);
    assert(out.model() =~= oa_apply_usage(old(out).model(), opt_model(raw)));
}

fn header(out: &mut OOut, chunk: &JsVal)
    ensures
        final(out).model() == oa_header(old(out).model(), chunk@),
        final(out).content == old(out).content,
{
    let rid_falsy = match &out.response_id {
        None => true,
        Some(x) => x.as_str().is_empty(),
    };
    if rid_falsy {
        out.response_id = opt_string(get(Some(chunk), "id"));
    }
    let ghost o1 = out.model();
    if let Some(cm) = nonempty(get(Some(chunk), "model")) {
        if !str_eq(cm, out.model.as_str()) {
            let rm_falsy = match &out.response_model {
                None => true,
                Some(x) => x.as_str().is_empty(),
            };
            if rm_falsy {
                out.response_model = Some(cm.to_string());
            }
        }
    }
    assert(out.model() =~= (match nonempty_str(get_field(chunk@, "model"@)) {
        Some(cm) => if cm != o1.model && falsy(o1.response_model) {
            OOutModel { response_model: Some(cm), ..o1 }
        } else {
            o1
        },
        None => o1,
    }));
    if is_object(get(Some(chunk), "usage")) {
        apply_usage(out, get(Some(chunk), "usage"));
    }
}

fn ensure_text_exec(st: &mut OState) -> (i: usize)
    requires
        old(st).wf(),
    ensures
        final(st).wf(),
        (final(st).model(), i as int) == ensure_text(old(st).model()),
        i < final(st).out.content@.len(),
{
    if let Some(i) = st.text_idx {
        return i;
    }
    let b = OBlock::new(Kind::Text);
    st.out.content.push(b);
    let i = st.out.content.len() - 1;
    st.text_idx = Some(i);
    st.emit(oev_ci_exec("text_start", i));
    assert(st.model() =~= ensure_text(old(st).model()).0);
    i
}

fn ensure_thinking_exec(st: &mut OState, sig: &str) -> (i: usize)
    requires
        old(st).wf(),
    ensures
        final(st).wf(),
        (final(st).model(), i as int) == ensure_thinking(old(st).model(), sig@),
        i < final(st).out.content@.len(),
{
    if let Some(i) = st.thinking_idx {
        return i;
    }
    let mut b = OBlock::new(Kind::Thinking);
    b.thinking_signature = chars_of(sig);
    st.out.content.push(b);
    let i = st.out.content.len() - 1;
    st.thinking_idx = Some(i);
    st.emit(oev_ci_exec("thinking_start", i));
    assert(st.model() =~= ensure_thinking(old(st).model(), sig@).0);
    i
}

/// The known block of a tool-call fragment.
fn tool_lookup_exec(st: &OState, si: Option<i64>, id: Option<&[char]>) -> (r: Option<usize>)
    requires
        st.wf(),
    ensures
        opt_usize(r) == (match (match si {
            Some(x) => map_get(st.model().by_index, x),
            None => None,
        }) {
            Some(p) => Some(p),
            None => match id {
                Some(k) => assoc_get(st.model().by_id, k@),
                None => None,
            },
        }),
        r matches Some(p) ==> p < st.out.content@.len(),
{
    let by_index = match si {
        Some(x) => idx_get(&st.by_index, x),
        None => None,
    };
    match by_index {
        Some(p) => Some(p),
        None => match id {
            Some(k) => id_get(&st.by_id, k),
            None => None,
        },
    }
}

/// The block of a tool-call fragment, found or created.
fn ensure_tool_exec(st: &mut OState, tc: &JsVal) -> (p: usize)
    requires
        old(st).wf(),
    ensures
        final(st).wf(),
        (final(st).model(), p as int) == ensure_tool(old(st).model(), tc@),
        p < final(st).out.content@.len(),
{
    let ghost s0 = st.model();
    let si = as_i64(get(Some(tc), "index"));
    let id = nonempty(get(Some(tc), "id"));
    let id_chars: Vec<char> = match id {
        Some(x) => chars_of(x),
        None => Vec::new(),
    };
    let id_opt: Option<&[char]> = match id {
        Some(_) => Some(id_chars.as_slice()),
        None => None,
    };
    let found = tool_lookup_exec(st, si, id_opt);
    assert(opt_usize(found) == tool_lookup(s0, tc@));
    let p: usize = match found {
        Some(p) => p,
        None => {
            let name0 = match nonempty(get(get(Some(tc), "function"), "name")) {
                Some(x) => chars_of(x),
                None => Vec::new(),
            };
            let mut b = OBlock::new(Kind::ToolCall);
            b.id = crate::text::chars_range(id_chars.as_slice(), 0, id_chars.len());
            b.name = name0;
            b.stream_index = si;
            assert(id_chars@.subrange(0, id_chars@.len() as int) =~= id_chars@);
            st.out.content.push(b);
            let p = st.out.content.len() - 1;
            let ghost sa = st.model();
            assert(sa =~= push_block(s0, b.model()));
            if let Some(x) = si {
                idx_put(&mut st.by_index, x, p);
            }
            let ghost sb = st.model();
            assert(sb =~= (match si {
                Some(x) => OStateModel { by_index: sa.by_index.insert(x, p as int), ..sa },
                None => sa,
            }));
            if id.is_some() {
                id_put(&mut st.by_id, id_chars.as_slice(), p);
            }
            assert(st.model() =~= (match tc_id(tc@) {
                Some(k) => OStateModel { by_id: assoc_put(sb.by_id, k, p as int), ..sb },
                None => sb,
            }));
            st.emit(oev_ci_exec("toolcall_start", p));
            assert(st.model() == tool_create(s0, tc@));
            p
        },
    };
    let ghost s1 = st.model();
    if let Some(x) = si {
        if st.out.content[p].stream_index.is_none() {
            let ghost c0 = st.out.content@;
            assert(s1.out.content[p as int] == c0[p as int].model());
            let mut b = st.take_block(p);
            b.stream_index = Some(x);
            proof {
                lemma_replace_oblock(c0, p as int, b);
            }
            st.put_block(p, b);
            idx_put(&mut st.by_index, x, p);
        }
    }
    let ghost s2 = st.model();
    assert(s2 =~= (match tc_index(tc@) {
        Some(x) => if 0 <= p < s1.out.content.len() && s1.out.content[p as int].stream_index is None {
            OStateModel {
                by_index: s1.by_index.insert(x, p as int),
                ..set_oblock(s1, p as int, OBlockModel { stream_index: Some(x), ..s1.out.content[p as int] })
            }
        } else {
            s1
        },
        None => s1,
    }));
    if id.is_some() {
        id_put(&mut st.by_id, id_chars.as_slice(), p);
    }
    assert(st.model() =~= tool_backfill(s1, p as int, tc@));
    p
}

/// One tool-call fragment.
fn tool_call_step_exec(st: &mut OState, tc: &JsVal)
    requires
        old(st).wf(),
    ensures
        final(st).wf(),
        final(st).model() == tool_call_step(old(st).model(), tc@),
{
    let pos = ensure_tool_exec(st, tc);
    let ghost s1 = st.model();
    let id = nonempty(get(Some(tc), "id"));
    let ghost c0 = st.out.content@;
    let mut b = st.take_block(pos);
    let ghost b0 = b.model();
    assert(b0 == s1.out.content[pos as int]);
    if let Some(x) = id {
        if b.id.len() == 0 {
            b.id = chars_of(x);
            id_put(&mut st.by_id, b.id.as_slice(), pos);
        }
    }
    if let Some(nm) = nonempty(get(get(Some(tc), "function"), "name")) {
        if b.name.len() == 0 {
            b.name = chars_of(nm);
        }
    }
    let d: Vec<char> = match nonempty(get(get(Some(tc), "function"), "arguments")) {
        Some(args) => {
            let a = chars_of(args);
            push_all(&mut b.partial_args, a.as_slice());
            b.arguments = crate::anthropic::parse_chars(b.partial_args.as_slice());
            a
        },
        None => Vec::new(),
    };
    proof {
        lemma_replace_oblock(c0, pos as int, b);
    }
    st.put_block(pos, b);
    st.emit(oev_ci_text_exec("toolcall_delta", pos, "delta", d.as_slice()));
}

/// The reasoning text of a delta, with the name of its field.
fn reasoning_exec<'a>(delta: &'a JsVal) -> (r: Option<(&'static str, &'a str)>)
    ensures
        match (r, reasoning_of(delta@)) {
            (Some((f, v)), Some((g, w))) => f@ == g && v@ == w,
            (None, None) => true,
            _ => false,
        },
{
    if let Some(v) = nonempty(get(Some(delta), "reasoning_content")) {
        return Some(("reasoning_content", v));
    }
    if let Some(v) = nonempty(get(Some(delta), "reasoning")) {
        return Some(("reasoning", v));
    }
    if let Some(v) = nonempty(get(Some(delta), "reasoning_text")) {
        return Some(("reasoning_text", v));
    }
    None
}

/// The tool-call fragments of a delta, in order.
fn tool_calls_exec(st: &mut OState, tcs: &Vec<JsVal>)
    requires
        old(st).wf(),
    ensures
        final(st).wf(),
        final(st).model() == tool_calls_fold(old(st).model(), items_view(tcs@)),
{
    let ghost s0 = st.model();
    let ghost all = items_view(tcs@);
    proof {
        crate::json::lemma_items_view(tcs@);
    }
    let mut i: usize = 0;
    assert(all.subrange(0, 0) =~= Seq::<JsModel>::empty());
    while i < tcs.len()
        invariant
            all == items_view(tcs@),
            all.len() == tcs@.len(),
            forall|k: int| 0 <= k < tcs@.len() ==> #[trigger] all[k] == tcs@[k]@,
            i <= tcs@.len(),
            s0 == old(st).model(),
            st.wf(),
            st.model() == tool_calls_fold(s0, all.subrange(0, i as int)),
        decreases tcs.len() - i,
    {
        let ghost pre = all.subrange(0, i + 1);
        assert(pre.drop_last() =~= all.subrange(0, i as int));
        assert(pre.last() == tcs@[i as int]@);
        tool_call_step_exec(st, &tcs[i]);
        i += 1;
    }
    assert(all.subrange(0, tcs@.len() as int) =~= all);
}

/// A delta: content text, reasoning text, tool-call fragments.
fn delta_step_exec(st: &mut OState, delta: &JsVal)
    requires
        old(st).wf(),
    ensures
        final(st).wf(),
        final(st).model() == delta_step(old(st).model(), delta@),
{
    let ghost s0 = st.model();
    if let Some(c) = nonempty(get(Some(delta), "content")) {
        let i = ensure_text_exec(st);
        let ghost c0 = st.out.content@;
        let mut b = st.take_block(i);
        let cv = chars_of(c);
        push_all(&mut b.text, cv.as_slice());
        proof {
            lemma_replace_oblock(c0, i as int, b);
        }
        st.put_block(i, b);
        st.emit(oev_ci_text_exec("text_delta", i, "delta", cv.as_slice()));
    }
    let ghost s1 = st.model();
    if let Some((field, val)) = reasoning_exec(delta) {
        let i = ensure_thinking_exec(st, field);
        let ghost c0 = st.out.content@;
        let mut b = st.take_block(i);
        let vv = chars_of(val);
        push_all(&mut b.thinking, vv.as_slice());
        proof {
            lemma_replace_oblock(c0, i as int, b);
        }
        st.put_block(i, b);
        st.emit(oev_ci_text_exec("thinking_delta", i, "delta", vv.as_slice()));
    }
    match get(Some(delta), "tool_calls") {
        Some(JsVal::Arr(tcs)) => {
            tool_calls_exec(st, tcs);
        },
        _ => {},
    }
}

/// The stop reason and error message for a finish reason.
fn map_stop(reason: &str) -> (r: (String, Option<String>))
    ensures
        r.0@ == oa_map_stop(reason@).0,
        opt_chars(r.1) == oa_map_stop(reason@).1,
{
    if str_eq(reason, "stop") || str_eq(reason, "end") {
        ("stop".to_string(), None)
    } else if str_eq(reason, "length") {
        ("length".to_string(), None)
    } else if str_eq(reason, "function_call") || str_eq(reason, "tool_calls") {
        ("toolUse".to_string(), None)
    } else {
        let mut m = chars_of("Provider finish_reason: ");
        push_all(&mut m, chars_of(reason).as_slice());
        ("error".to_string(), Some(string_from_chars(m.as_slice())))
    }
}

/// The first choice of a chunk, unless it is missing or `null`.
fn first_choice(chunk: &JsVal) -> (r: Option<&JsVal>)
    ensures
        match (r, oa_choice(chunk@)) {
            (Some(c), Some(m)) => c@ == m,
            (None, None) => true,
            _ => false,
        },
{
    match get(Some(chunk), "choices") {
        Some(JsVal::Arr(a)) => {
            proof {
                crate::json::lemma_items_view(a@);
            }
            if a.len() > 0 && !is_null(Some(&a[0])) {
                Some(&a[0])
            } else {
                None
            }
        },
        _ => None,
    }
}

/// One chunk.
fn chunk_step_exec(st: &mut OState, chunk: &JsVal)
    requires
        old(st).wf(),
    ensures
        final(st).wf(),
        final(st).model() == chunk_step(old(st).model(), chunk@),
{
    reveal(chunk_step);
    if !is_object(Some(chunk)) {
        return;
    }
    header(&mut st.out, chunk);
    let choice = match first_choice(chunk) {
        Some(c) => c,
        None => return,
    };
    let ghost s1 = st.model();
    if !is_object(get(Some(chunk), "usage")) && is_object(get(Some(choice), "usage")) {
        apply_usage(&mut st.out, get(Some(choice), "usage"));
    }
    let ghost s2 = st.model();
    if let Some(reason) = nonempty(get(Some(choice), "finish_reason")) {
        let (stop, err) = map_stop(reason);
        st.out.stop_reason = stop;
        if let Some(m) = err {
            st.out.error_message = Some(m);
        }
        st.has_finish = true;
        assert(st.model() =~= (OStateModel {
            has_finish: true,
            ..with_out(s2, OOutModel {
                stop_reason: oa_map_stop(reason@).0,
                error_message: match oa_map_stop(reason@).1 {
                    Some(m) => Some(m),
                    None => s2.out.error_message,
                },
                ..s2.out
            })
        }));
    }
    if let Some(delta) = get(Some(choice), "delta") {
        if is_object(Some(delta)) {
            delta_step_exec(st, delta);
        }
    }
}

fn oev_exec(ty: &str) -> (r: JsVal)
    ensures
        r@ == oev(ty@),
{
    let mut pairs: Vec<(&str, JsVal)> = Vec::new();
    pairs.push(("type", js_str(ty)));
    assert(pairs_view(pairs@) =~= seq![("type"@, s(ty@))]);
    js_obj(pairs)
}

fn oblock_to_json(b: &OBlock) -> (r: JsVal)
    ensures
        r@ == oblock_json(b.model()),
{
    let mut pairs: Vec<(&str, JsVal)> = Vec::new();
    assert(pairs_view(pairs@) =~= Seq::<(Seq<char>, JsModel)>::empty());
    match b.kind {
        Kind::Text => {
            push_pair(&mut pairs, "type", js_str("text"));
            push_pair(&mut pairs, "text", str_val(b.text.as_slice()));
            assert(pairs_view(pairs@) =~= seq![("type"@, s("text"@)), ("text"@, s(b.text@))]);
        },
        Kind::Thinking => {
            push_pair(&mut pairs, "type", js_str("thinking"));
            push_pair(&mut pairs, "thinking", str_val(b.thinking.as_slice()));
            push_pair(&mut pairs, "thinkingSignature", str_val(b.thinking_signature.as_slice()));
            assert(pairs_view(pairs@) =~= seq![
                ("type"@, s("thinking"@)),
                ("thinking"@, s(b.thinking@)),
                ("thinkingSignature"@, s(b.thinking_signature@)),
            ]);
        },
        Kind::ToolCall => {
            push_pair(&mut pairs, "type", js_str("toolCall"));
            push_pair(&mut pairs, "id", str_val(b.id.as_slice()));
            push_pair(&mut pairs, "name", str_val(b.name.as_slice()));
            push_pair(&mut pairs, "arguments", clone_js(&b.arguments));
            assert(pairs_view(pairs@) =~= seq![
                ("type"@, s("toolCall"@)),
                ("id"@, s(b.id@)),
                ("name"@, s(b.name@)),
                ("arguments"@, b.arguments@),
            ]);
        },
    }
    let r = js_obj(pairs);
    assert(r@ =~= oblock_json(b.model()));
    r
}

impl OOut {
    fn new(api: &str, provider: &str, model: &str) -> (o: OOut)
        ensures
            o.model() == oa_init_out(api@, provider@, model@),
    {
        let o = OOut {
            content: Vec::new(),
            api: api.to_string(),
            provider: provider.to_string(),
            model: model.to_string(),
            response_id: None,
            response_model: None,
            u_input: 0,
            u_output: 0,
            u_cache_read: 0,
            u_cache_write: 0,
            u_reasoning: None,
            u_total: 0,
            stop_reason: "stop".to_string(),
            error_message: None,
        };
        assert(o.model() =~= oa_init_out(api@, provider@, model@));
        o
    }

    fn content_json(&self) -> (r: JsVal)
        ensures
            r@ == JsModel::Arr(self.model().content.map_values(|b: OBlockModel| oblock_json(b))),
    {
        let ghost c = self.model().content;
        let ghost target = c.map_values(|b: OBlockModel| oblock_json(b));
        let mut items: Vec<JsVal> = Vec::new();
        let mut i: usize = 0;
        while i < self.content.len()
            invariant
                c == self.model().content,
                target == c.map_values(|b: OBlockModel| oblock_json(b)),
                c.len() == self.content@.len(),
                i <= c.len(),
                items_view(items@) == target.subrange(0, i as int),
            decreases self.content.len() - i,
        {
            let j = oblock_to_json(&self.content[i]);
            let ghost prev = items@;
            items.push(j);
            assert(items@.drop_last() == prev);
            assert(items_view(items@) =~= target.subrange(0, i + 1));
            i += 1;
        }
        assert(target.subrange(0, c.len() as int) =~= target);
        JsVal::Arr(items)
    }

    /// The final message.
    fn snapshot(&self) -> (r: JsVal)
        ensures
            r@ == oa_final_json(self.model()),
    {
        let ghost o = self.model();
        let mut usage: Vec<(&str, JsVal)> = Vec::new();
        assert(pairs_view(usage@) =~= Seq::<(Seq<char>, JsModel)>::empty());
        push_pair(&mut usage, "input", js_num(self.u_input));
        push_pair(&mut usage, "output", js_num(self.u_output));
        push_pair(&mut usage, "cacheRead", js_num(self.u_cache_read));
        push_pair(&mut usage, "cacheWrite", js_num(self.u_cache_write));
        let ghost u1 = pairs_view(usage@);
        if let Some(v) = self.u_reasoning {
            push_pair(&mut usage, "reasoning", js_num(v));
        }
        let ghost u2 = pairs_view(usage@);
        assert(u2 =~= u1 + opt_entry("reasoning"@, opt_num(self.u_reasoning)));
        push_pair(&mut usage, "totalTokens", js_num(self.u_total));
        assert(u1 =~= seq![
            ("input"@, n(o.u_input)),
            ("output"@, n(o.u_output)),
            ("cacheRead"@, n(o.u_cache_read)),
            ("cacheWrite"@, n(o.u_cache_write)),
        ]);
        assert(pairs_view(usage@) =~= u2 + seq![("totalTokens"@, n(o.u_total))]);
        let usage_v = js_obj(usage);
        assert(usage_v@ == oa_usage_json(o));
        let mut msg: Vec<(&str, JsVal)> = Vec::new();
        assert(pairs_view(msg@) =~= Seq::<(Seq<char>, JsModel)>::empty());
        push_pair(&mut msg, "role", js_str("assistant"));
        push_pair(&mut msg, "api", js_str(self.api.as_str()));
        push_pair(&mut msg, "provider", js_str(self.provider.as_str()));
        push_pair(&mut msg, "model", js_str(self.model.as_str()));
        let ghost m1 = pairs_view(msg@);
        if let Some(id) = &self.response_id {
            push_pair(&mut msg, "responseId", js_str(id.as_str()));
        }
        let ghost m2 = pairs_view(msg@);
        assert(m2 =~= m1 + opt_entry("responseId"@, opt_s(opt_chars(self.response_id))));
        if let Some(rm) = &self.response_model {
            push_pair(&mut msg, "responseModel", js_str(rm.as_str()));
        }
        let ghost m3 = pairs_view(msg@);
        assert(m3 =~= m2 + opt_entry("responseModel"@, opt_s(opt_chars(self.response_model))));
        push_pair(&mut msg, "content", self.content_json());
        push_pair(&mut msg, "usage", usage_v);
        push_pair(&mut msg, "stopReason", js_str(self.stop_reason.as_str()));
        let ghost m4 = pairs_view(msg@);
        if let Some(e) = &self.error_message {
            push_pair(&mut msg, "errorMessage", js_str(e.as_str()));
        }
        assert(pairs_view(msg@) =~= m4 + opt_entry("errorMessage"@, opt_s(opt_chars(self.error_message))));
        assert(m1 =~= seq![
            ("role"@, s("assistant"@)),
            ("api"@, s(o.api)),
            ("provider"@, s(o.provider)),
            ("model"@, s(o.model)),
        ]);
        assert(m4 =~= m3 + seq![
            ("content"@, JsModel::Arr(o.content.map_values(|b: OBlockModel| oblock_json(b)))),
            ("usage"@, oa_usage_json(o)),
            ("stopReason"@, s(o.stop_reason)),
        ]);
        let r = js_obj(msg);
        assert(r@ =~= oa_final_json(o));
        r
    }
}

/// The `*_end` events of every block, in order.
fn finish_blocks_exec(st: &mut OState)
    requires
        old(st).wf(),
    ensures
        final(st).wf(),
        (final(st).out.model(), items_view(final(st).events@)) == finish_blocks(
            old(st).out.model(),
            items_view(old(st).events@),
            old(st).out.content@.len() as int,
        ),
        final(st).has_finish == old(st).has_finish,
{
    let ghost o0 = st.out.model();
    let ghost e0 = items_view(st.events@);
    let len = st.out.content.len();
    let mut i: usize = 0;
    while i < len
        invariant
            o0 == old(st).out.model(),
            e0 == items_view(old(st).events@),
            len == old(st).out.content@.len(),
            st.out.content@.len() == len,
            i <= len,
            st.wf(),
            st.has_finish == old(st).has_finish,
            (st.out.model(), items_view(st.events@)) == finish_blocks(o0, e0, i as int),
        decreases len - i,
    {
        let ghost s1 = st.model();
        assert(s1.out.content[i as int] == st.out.content@[i as int].model());
        match st.out.content[i].kind {
            Kind::Text => {
                let e = oev_ci_text_exec("text_end", i, "content", st.out.content[i].text.as_slice());
                st.emit(e);
            },
            Kind::Thinking => {
                let e = oev_ci_text_exec("thinking_end", i, "content", st.out.content[i].thinking.as_slice());
                st.emit(e);
            },
            Kind::ToolCall => {
                let ghost c0 = st.out.content@;
                let mut b = st.take_block(i);
                b.arguments = crate::anthropic::parse_chars(b.partial_args.as_slice());
                proof {
                    lemma_replace_oblock(c0, i as int, b);
                }
                st.put_block(i, b);
                st.emit(oev_ci_exec("toolcall_end", i));
            },
        }
        i += 1;
    }
}

/// The error ending: the message marked as an error with the message, and
/// an `error` event.
fn catch(st: &mut OState, message: String)
    ensures
        final(st).out.model() == (OOutModel { stop_reason: "error"@, error_message: Some(message@), ..old(st).out.model() }),
        items_view(final(st).events@) == items_view(old(st).events@).push(oev_reason("error"@, "error"@)),
{
    st.out.stop_reason = "error".to_string();
    let ghost mv = message@;
    st.out.error_message = Some(message);
    assert(st.out.model() =~= (OOutModel { stop_reason: "error"@, error_message: Some(mv), ..old(st).out.model() }));
    st.emit(oev_reason_exec("error", "error"));
}

/// Decodes an ordered sequence of already-parsed chat-completion chunks
/// into the normalized transcript: the events and the final message.
pub fn decode_openai(chunks: &[JsVal], api: &str, provider: &str, model: &str) -> (r: JsVal)
    ensures
        r@ == decode_openai_spec(items_view(chunks@), api@, provider@, model@),
{
    let mut st = OState {
        out: OOut::new(api, provider, model),
        events: Vec::new(),
        text_idx: None,
        thinking_idx: None,
        by_index: HashMap::new(),
        by_id: Vec::new(),
        has_finish: false,
    };
    assert(items_view(st.events@) =~= Seq::<JsModel>::empty());
    assert(idx_view(st.by_index@) =~= Map::<i64, int>::empty());
    assert(id_view(st.by_id@) =~= Seq::<(Seq<char>, int)>::empty());
    st.emit(oev_exec("start"));
    let ghost s0 = oa_init(api@, provider@, model@);
    assert(st.model() =~= s0);
    let ghost all = items_view(chunks@);
    proof {
        crate::json::lemma_items_view(chunks@);
    }
    let mut i: usize = 0;
    assert(all.subrange(0, 0) =~= Seq::<JsModel>::empty());
    while i < chunks.len()
        invariant
            all == items_view(chunks@),
            all.len() == chunks@.len(),
            forall|k: int| 0 <= k < chunks@.len() ==> #[trigger] all[k] == chunks@[k]@,
            i <= chunks@.len(),
            s0 == oa_init(api@, provider@, model@),
            st.wf(),
            st.model() == chunks_fold(s0, all.subrange(0, i as int)),
        decreases chunks.len() - i,
    {
        let ghost pre = all.subrange(0, i + 1);
        assert(pre.drop_last() =~= all.subrange(0, i as int));
        assert(pre.last() == chunks@[i as int]@);
        chunk_step_exec(&mut st, &chunks[i]);
        i += 1;
    }
    assert(all.subrange(0, chunks@.len() as int) =~= all);
    let ghost sf = st.model();
    finish_blocks_exec(&mut st);
    let terminal: Option<String> = if str_eq(st.out.stop_reason.as_str(), "error") {
        Some(
            match &st.out.error_message {
                Some(m) => m.clone(),
                None => "Provider returned an error stop reason".to_string(),
            },
        )
    } else if !st.has_finish {
        Some("Stream ended without finish_reason".to_string())
    } else {
        None
    };
    match terminal {
        Some(msg) => catch(&mut st, msg),
        None => {
            let e = oev_reason_exec("done", st.out.stop_reason.as_str());
            st.emit(e);
        },
    }
    let fin = st.out.snapshot();
    pair2("events", JsVal::Arr(st.events), "final", fin)
}


/// The canonical transcript of a JSON text holding the chunks (an array of
/// chunk values); where the text is not one JSON array, the parse error's
/// description.
pub fn decode_openai_canonical(chunks_json: &str, api: &str, provider: &str, model: &str) -> (r: Result<String, String>)
    ensures
        match chunk_values_document(chunks_json@) {
            Ok(items) => r matches Ok(t) && t@ == canonical_spec(decode_openai_spec(items, api@, provider@, model@)),
            Err(m) => r matches Err(e) && e@ == m,
        },
{
    match parse_chunk_values(chunks_json) {
        Ok(chunks) => Ok(canonical(&decode_openai(chunks.as_slice(), api, provider, model))),
        Err(m) => Err(m),
    }
}

// ---------------------------------------------------------------------------
// Laws
// ---------------------------------------------------------------------------

/// Blocks `0..a.len()` of `b` have the kind and the thinking signature they
/// have in `a`.
pub open spec fn blocks_kept(a: Seq<OBlockModel>, b: Seq<OBlockModel>) -> bool {
    &&& a.len() <= b.len()
    &&& forall|i: int|
        #![trigger b[i]]
        0 <= i < a.len() ==> b[i].kind == a[i].kind && b[i].thinking_signature == a[i].thinking_signature
}

proof fn lemma_kept_trans(a: Seq<OBlockModel>, b: Seq<OBlockModel>, c: Seq<OBlockModel>)
    requires
        blocks_kept(a, b),
        blocks_kept(b, c),
    ensures
        blocks_kept(a, c),
{
    assert forall|i: int| #![trigger c[i]] 0 <= i < a.len() implies c[i].kind == a[i].kind
        && c[i].thinking_signature == a[i].thinking_signature by {
        assert(b[i].kind == a[i].kind);
    }
}

proof fn lemma_kept_push(a: Seq<OBlockModel>, x: OBlockModel)
    ensures
        blocks_kept(a, a.push(x)),
{
    assert forall|i: int| #![trigger a.push(x)[i]] 0 <= i < a.len() implies a.push(x)[i].kind == a[i].kind
        && a.push(x)[i].thinking_signature == a[i].thinking_signature by {
        assert(a.push(x)[i] == a[i]);
    }
}

proof fn lemma_kept_update(a: Seq<OBlockModel>, j: int, x: OBlockModel)
    requires
        0 <= j < a.len(),
        x.kind == a[j].kind,
        x.thinking_signature == a[j].thinking_signature,
    ensures
        blocks_kept(a, a.update(j, x)),
{
    assert forall|i: int| #![trigger a.update(j, x)[i]] 0 <= i < a.len() implies a.update(j, x)[i].kind
        == a[i].kind && a.update(j, x)[i].thinking_signature == a[i].thinking_signature by {
        if i != j {
            assert(a.update(j, x)[i] == a[i]);
        }
    }
}

/// `a` is a prefix of `b`.
pub open spec fn events_kept(a: Seq<JsModel>, b: Seq<JsModel>) -> bool {
    &&& a.len() <= b.len()
    &&& forall|i: int| #![trigger b[i]] 0 <= i < a.len() ==> b[i] == a[i]
}

/// The types of the events the chunks make: `start`, and the events that
/// open and extend blocks.
pub open spec fn is_loop_type(t: Seq<char>) -> bool {
    ||| t == "start"@
    ||| t == "text_start"@
    ||| t == "thinking_start"@
    ||| t == "toolcall_start"@
    ||| t == "text_delta"@
    ||| t == "thinking_delta"@
    ||| t == "toolcall_delta"@
}

pub open spec fn is_loop_event(e: JsModel) -> bool {
    event_type(e) matches Some(t) && is_loop_type(t)
}

/// `a` is a prefix of `b`, and every event after it is one the chunks make.
pub open spec fn loop_events_added(a: Seq<JsModel>, b: Seq<JsModel>) -> bool {
    &&& events_kept(a, b)
    &&& forall|i: int| a.len() <= i < b.len() ==> is_loop_event(#[trigger] b[i])
}

proof fn lemma_loop_added_trans(a: Seq<JsModel>, b: Seq<JsModel>, c: Seq<JsModel>)
    requires
        loop_events_added(a, b),
        loop_events_added(b, c),
    ensures
        loop_events_added(a, c),
{
    assert forall|i: int| #![trigger c[i]] 0 <= i < a.len() implies c[i] == a[i] by {
        assert(b[i] == a[i]);
    }
    assert forall|i: int| a.len() <= i < c.len() implies is_loop_event(#[trigger] c[i]) by {
        if i < b.len() {
            assert(c[i] == b[i]);
        }
    }
}

proof fn lemma_oev_loop(ty: Seq<char>)
    requires
        is_loop_type(ty),
    ensures
        is_loop_event(oev(ty)),
{
    lemma_event_type(seq![("type"@, s(ty))], ty);
}

proof fn lemma_oev_ci_loop(ty: Seq<char>, ci: int)
    requires
        is_loop_type(ty),
    ensures
        is_loop_event(oev_ci(ty, ci)),
{
    lemma_event_type(seq![("type"@, s(ty)), ("contentIndex"@, n(ci as i64))], ty);
}

proof fn lemma_oev_ci_text_loop(ty: Seq<char>, ci: int, key: Seq<char>, text: Seq<char>)
    requires
        is_loop_type(ty),
    ensures
        is_loop_event(oev_ci_text(ty, ci, key, text)),
{
    lemma_event_type(seq![("type"@, s(ty)), ("contentIndex"@, n(ci as i64)), (key, s(text))], ty);
}

/// What a step within a chunk keeps: the blocks (see `blocks_kept`), the
/// events so far (adding only events the chunks make), the stop reason,
/// the error message, and whether a finish reason was seen.
pub open spec fn step_ok(a: OStateModel, b: OStateModel) -> bool {
    &&& blocks_kept(a.out.content, b.out.content)
    &&& loop_events_added(a.events, b.events)
    &&& b.out.stop_reason == a.out.stop_reason
    &&& b.out.error_message == a.out.error_message
    &&& b.has_finish == a.has_finish
}

proof fn lemma_step_ok_trans(a: OStateModel, b: OStateModel, c: OStateModel)
    requires
        step_ok(a, b),
        step_ok(b, c),
    ensures
        step_ok(a, c),
{
    lemma_kept_trans(a.out.content, b.out.content, c.out.content);
    lemma_loop_added_trans(a.events, b.events, c.events);
}

proof fn lemma_step_ok_refl(a: OStateModel)
    ensures
        step_ok(a, a),
{
}

/// The usage counts of two messages agree.
pub open spec fn usage_same(a: OOutModel, b: OOutModel) -> bool {
    &&& b.u_input == a.u_input
    &&& b.u_output == a.u_output
    &&& b.u_cache_read == a.u_cache_read
    &&& b.u_cache_write == a.u_cache_write
    &&& b.u_reasoning == a.u_reasoning
    &&& b.u_total == a.u_total
}

/// A step inside a delta: what `step_ok` says, and the usage untouched.
pub open spec fn inner_ok(a: OStateModel, b: OStateModel) -> bool {
    &&& step_ok(a, b)
    &&& usage_same(a.out, b.out)
}

proof fn lemma_inner_trans(a: OStateModel, b: OStateModel, c: OStateModel)
    requires
        inner_ok(a, b),
        inner_ok(b, c),
    ensures
        inner_ok(a, c),
{
    lemma_step_ok_trans(a, b, c);
}

proof fn lemma_inner_refl(a: OStateModel)
    ensures
        inner_ok(a, a),
{
}

proof fn lemma_inner_emit(a: OStateModel, e: JsModel)
    requires
        is_loop_event(e),
    ensures
        inner_ok(a, emit(a, e)),
{
    assert forall|i: int| #![trigger emit(a, e).events[i]] 0 <= i < a.events.len() implies emit(a, e).events[i]
        == a.events[i] by {
        assert(a.events.push(e)[i] == a.events[i]);
    }
}

proof fn lemma_inner_push(a: OStateModel, x: OBlockModel)
    ensures
        inner_ok(a, push_block(a, x)),
{
    lemma_kept_push(a.out.content, x);
}

proof fn lemma_inner_set(a: OStateModel, j: int, x: OBlockModel)
    requires
        0 <= j < a.out.content.len(),
        x.kind == a.out.content[j].kind,
        x.thinking_signature == a.out.content[j].thinking_signature,
    ensures
        inner_ok(a, set_oblock(a, j, x)),
{
    lemma_kept_update(a.out.content, j, x);
}

proof fn lemma_ensure_text_ok(st: OStateModel)
    ensures
        inner_ok(st, ensure_text(st).0),
{
    if st.text_idx is None {
        let s1 = push_block(st, oblock(Kind::Text));
        lemma_inner_push(st, oblock(Kind::Text));
        lemma_oev_ci_loop("text_start"@, st.out.content.len() as int);
        lemma_inner_emit(s1, oev_ci("text_start"@, st.out.content.len() as int));
        lemma_inner_trans(st, s1, emit(s1, oev_ci("text_start"@, st.out.content.len() as int)));
    }
}

proof fn lemma_ensure_thinking_ok(st: OStateModel, sig: Seq<char>)
    ensures
        inner_ok(st, ensure_thinking(st, sig).0),
{
    if st.thinking_idx is None {
        let b = OBlockModel { thinking_signature: sig, ..oblock(Kind::Thinking) };
        let s1 = push_block(st, b);
        lemma_inner_push(st, b);
        lemma_oev_ci_loop("thinking_start"@, st.out.content.len() as int);
        lemma_inner_emit(s1, oev_ci("thinking_start"@, st.out.content.len() as int));
        lemma_inner_trans(st, s1, emit(s1, oev_ci("thinking_start"@, st.out.content.len() as int)));
    }
}

proof fn lemma_ensure_tool_ok(st: OStateModel, tc: JsModel)
    ensures
        inner_ok(st, ensure_tool(st, tc).0),
{
    let p = match tool_lookup(st, tc) {
        Some(p) => p,
        None => st.out.content.len() as int,
    };
    let s1 = match tool_lookup(st, tc) {
        Some(_) => st,
        None => tool_create(st, tc),
    };
    if tool_lookup(st, tc) is None {
        let si = tc_index(tc);
        let id0 = match tc_id(tc) {
            Some(x) => x,
            None => Seq::empty(),
        };
        let name0 = match nonempty_str(get_field(get_field(tc, "function"@), "name"@)) {
            Some(x) => x,
            None => Seq::empty(),
        };
        let b = OBlockModel { id: id0, name: name0, stream_index: si, ..oblock(Kind::ToolCall) };
        let sa = push_block(st, b);
        lemma_inner_push(st, b);
        let sb = match si {
            Some(x) => OStateModel { by_index: sa.by_index.insert(x, p), ..sa },
            None => sa,
        };
        let sc = match tc_id(tc) {
            Some(id) => OStateModel { by_id: assoc_put(sb.by_id, id, p), ..sb },
            None => sb,
        };
        assert(inner_ok(st, sc));
        lemma_oev_ci_loop("toolcall_start"@, p);
        lemma_inner_emit(sc, oev_ci("toolcall_start"@, p));
        lemma_inner_trans(st, sc, s1);
    } else {
        lemma_inner_refl(st);
    }
    let s2 = match tc_index(tc) {
        Some(x) => if 0 <= p < s1.out.content.len() && s1.out.content[p].stream_index is None {
            OStateModel {
                by_index: s1.by_index.insert(x, p),
                ..set_oblock(s1, p, OBlockModel { stream_index: Some(x), ..s1.out.content[p] })
            }
        } else {
            s1
        },
        None => s1,
    };
    match tc_index(tc) {
        Some(x) => if 0 <= p < s1.out.content.len() && s1.out.content[p].stream_index is None {
            lemma_inner_set(s1, p, OBlockModel { stream_index: Some(x), ..s1.out.content[p] });
        } else {
            lemma_inner_refl(s1);
        },
        None => lemma_inner_refl(s1),
    }
    assert(inner_ok(s1, s2));
    lemma_inner_trans(st, s1, s2);
    assert(inner_ok(s2, tool_backfill(s1, p, tc)));
    lemma_inner_trans(st, s2, tool_backfill(s1, p, tc));
}

proof fn lemma_tool_call_ok(st: OStateModel, tc: JsModel)
    ensures
        inner_ok(st, tool_call_step(st, tc)),
{
    lemma_ensure_tool_ok(st, tc);
    let (st1, pos) = ensure_tool(st, tc);
    if 0 <= pos < st1.out.content.len() {
        let r = tool_call_step(st, tc);
        let b3 = r.out.content[pos];
        let s2 = OStateModel { by_id: r.by_id, ..set_oblock(st1, pos, b3) };
        assert(r.out.content == st1.out.content.update(pos, b3));
        lemma_inner_set(st1, pos, b3);
        assert(inner_ok(st1, s2));
        let d = r.events.last();
        assert(r == emit(s2, d));
        let dt = match nonempty_str(get_field(get_field(tc, "function"@), "arguments"@)) {
            Some(args) => args,
            None => Seq::empty(),
        };
        assert(d == oev_ci_text("toolcall_delta"@, pos, "delta"@, dt));
        lemma_oev_ci_text_loop("toolcall_delta"@, pos, "delta"@, dt);
        lemma_inner_emit(s2, d);
        lemma_inner_trans(st1, s2, r);
        lemma_inner_trans(st, st1, r);
    } else {
        lemma_inner_refl(st1);
    }
}

proof fn lemma_tool_calls_ok(st: OStateModel, tcs: Seq<JsModel>)
    ensures
        inner_ok(st, tool_calls_fold(st, tcs)),
    decreases tcs.len(),
{
    if tcs.len() == 0 {
        lemma_inner_refl(st);
    } else {
        lemma_tool_calls_ok(st, tcs.drop_last());
        let mid = tool_calls_fold(st, tcs.drop_last());
        lemma_tool_call_ok(mid, tcs.last());
        lemma_inner_trans(st, mid, tool_calls_fold(st, tcs));
    }
}

proof fn lemma_delta_ok(st: OStateModel, delta: JsModel)
    ensures
        inner_ok(st, delta_step(st, delta)),
{
    let st1 = match nonempty_str(get_field(delta, "content"@)) {
        Some(c) => {
            let (sa, i) = ensure_text(st);
            if 0 <= i < sa.out.content.len() {
                let b = sa.out.content[i];
                emit(set_oblock(sa, i, OBlockModel { text: b.text + c, ..b }), oev_ci_text("text_delta"@, i, "delta"@, c))
            } else {
                sa
            }
        },
        None => st,
    };
    match nonempty_str(get_field(delta, "content"@)) {
        Some(c) => {
            lemma_ensure_text_ok(st);
            let (sa, i) = ensure_text(st);
            if 0 <= i < sa.out.content.len() {
                let b = sa.out.content[i];
                let sb = set_oblock(sa, i, OBlockModel { text: b.text + c, ..b });
                lemma_inner_set(sa, i, OBlockModel { text: b.text + c, ..b });
                lemma_oev_ci_text_loop("text_delta"@, i, "delta"@, c);
                lemma_inner_emit(sb, oev_ci_text("text_delta"@, i, "delta"@, c));
                lemma_inner_trans(sa, sb, st1);
                lemma_inner_trans(st, sa, st1);
            }
        },
        None => lemma_inner_refl(st),
    }
    assert(inner_ok(st, st1));
    let st2 = match reasoning_of(delta) {
        Some((field, val)) => {
            let (sa, i) = ensure_thinking(st1, field);
            if 0 <= i < sa.out.content.len() {
                let b = sa.out.content[i];
                emit(set_oblock(sa, i, OBlockModel { thinking: b.thinking + val, ..b }), oev_ci_text("thinking_delta"@, i, "delta"@, val))
            } else {
                sa
            }
        },
        None => st1,
    };
    match reasoning_of(delta) {
        Some((field, val)) => {
            lemma_ensure_thinking_ok(st1, field);
            let (sa, i) = ensure_thinking(st1, field);
            if 0 <= i < sa.out.content.len() {
                let b = sa.out.content[i];
                let sb = set_oblock(sa, i, OBlockModel { thinking: b.thinking + val, ..b });
                lemma_inner_set(sa, i, OBlockModel { thinking: b.thinking + val, ..b });
                lemma_oev_ci_text_loop("thinking_delta"@, i, "delta"@, val);
                lemma_inner_emit(sb, oev_ci_text("thinking_delta"@, i, "delta"@, val));
                lemma_inner_trans(sa, sb, st2);
                lemma_inner_trans(st1, sa, st2);
            }
            lemma_inner_trans(st, st1, st2);
        },
        None => {},
    }
    assert(inner_ok(st, st2));
    match get_field(delta, "tool_calls"@) {
        JsModel::Arr(tcs) => {
            lemma_tool_calls_ok(st2, tcs);
            lemma_inner_trans(st, st2, delta_step(st, delta));
        },
        _ => {},
    }
}

/// Whether a chunk carries a finish reason.
pub open spec fn chunk_finishes(chunk: JsModel) -> bool {
    &&& chunk is Obj
    &&& oa_choice(chunk) matches Some(choice)
    &&& nonempty_str(get_field(choice, "finish_reason"@)) is Some
}

/// A chunk never removes a block or an event, and never changes the kind
/// of a block or the signature a thinking block got when it was made; a
/// chunk without a finish reason leaves the stop reason and the error
/// message as they were.
pub proof fn law_openai_chunk_keeps_blocks(st: OStateModel, chunk: JsModel)
    ensures
        blocks_kept(st.out.content, chunk_step(st, chunk).out.content),
        loop_events_added(st.events, chunk_step(st, chunk).events),
        !chunk_finishes(chunk) ==> step_ok(st, chunk_step(st, chunk)),
{
    reveal(chunk_step);
    lemma_step_ok_refl(st);
    if chunk is Obj {
        match oa_choice(chunk) {
            None => {},
            Some(choice) => {
                let st1 = with_out(st, oa_header(st.out, chunk));
                let st2 = if !(get_field(chunk, "usage"@) is Obj) && get_field(choice, "usage"@) is Obj {
                    with_out(st1, oa_apply_usage(st1.out, get_field(choice, "usage"@)))
                } else {
                    st1
                };
                let st3 = match nonempty_str(get_field(choice, "finish_reason"@)) {
                    Some(reason) => {
                        let (stop, err) = oa_map_stop(reason);
                        OStateModel {
                            has_finish: true,
                            ..with_out(st2, OOutModel {
                                stop_reason: stop,
                                error_message: match err {
                                    Some(m) => Some(m),
                                    None => st2.out.error_message,
                                },
                                ..st2.out
                            })
                        }
                    },
                    None => st2,
                };
                assert(st3.out.content == st.out.content);
                assert(st3.events == st.events);
                if get_field(choice, "delta"@) is Obj {
                    lemma_delta_ok(st3, get_field(choice, "delta"@));
                }
            },
        }
    }
}

/// A chunk whose first choice carries a non-empty `finish_reason` settles
/// the message's ending: `stop` and `end` stop normally, `length` stops for
/// length, `tool_calls` and `function_call` stop for a tool call (the error
/// message staying as it was), and any other reason is an error whose
/// message names it; the finish is recorded.
pub proof fn law_openai_finish_reasons(st: OStateModel, chunk: JsModel)
    requires
        chunk is Obj,
        oa_choice(chunk) is Some,
        nonempty_str(get_field(oa_choice(chunk)->0, "finish_reason"@)) is Some,
    ensures
        ({
            let r = nonempty_str(get_field(oa_choice(chunk)->0, "finish_reason"@))->0;
            let st2 = chunk_step(st, chunk);
            &&& st2.has_finish
            &&& (r == "stop"@ || r == "end"@) ==> st2.out.stop_reason == "stop"@ && st2.out.error_message
                == st.out.error_message
            &&& r == "length"@ ==> st2.out.stop_reason == "length"@ && st2.out.error_message
                == st.out.error_message
            &&& (r == "tool_calls"@ || r == "function_call"@) ==> st2.out.stop_reason == "toolUse"@
                && st2.out.error_message == st.out.error_message
            &&& !(r == "stop"@ || r == "end"@ || r == "length"@ || r == "tool_calls"@ || r == "function_call"@)
                ==> st2.out.stop_reason == "error"@ && st2.out.error_message == Some("Provider finish_reason: "@ + r)
        }),
{
    reveal(chunk_step);
    let choice = oa_choice(chunk)->0;
    let st1 = with_out(st, oa_header(st.out, chunk));
    let st2 = if !(get_field(chunk, "usage"@) is Obj) && get_field(choice, "usage"@) is Obj {
        with_out(st1, oa_apply_usage(st1.out, get_field(choice, "usage"@)))
    } else {
        st1
    };
    let reason = nonempty_str(get_field(choice, "finish_reason"@))->0;
    let (stop, err) = oa_map_stop(reason);
    let st3 = OStateModel {
        has_finish: true,
        ..with_out(st2, OOutModel {
            stop_reason: stop,
            error_message: match err {
                Some(m) => Some(m),
                None => st2.out.error_message,
            },
            ..st2.out
        })
    };
    assert(st2.out.error_message == st.out.error_message);
    if get_field(choice, "delta"@) is Obj {
        lemma_delta_ok(st3, get_field(choice, "delta"@));
    }
    reveal_strlit("stop");
    reveal_strlit("end");
    reveal_strlit("length");
    reveal_strlit("tool_calls");
    reveal_strlit("function_call");
}

/// A chunk object whose `usage` is an object sets the message's usage from
/// it, whatever the chunk's `choices` hold (empty, missing or `null`
/// included): output from `completion_tokens`, cache writes from
/// `prompt_tokens_details.cache_write_tokens`, cache reads from
/// `prompt_tokens_details.cached_tokens` where it is a number, else from
/// `prompt_cache_hit_tokens`, else 0; input is `prompt_tokens` less the
/// cache reads and writes, never below 0; reasoning from
/// `completion_tokens_details.reasoning_tokens`; the total sums the four.
pub proof fn law_openai_chunk_usage(st: OStateModel, chunk: JsModel)
    requires
        chunk is Obj,
        get_field(chunk, "usage"@) is Obj,
    ensures
        ({
            let u = get_field(chunk, "usage"@);
            let details = get_field(u, "prompt_tokens_details"@);
            let o = chunk_step(st, chunk).out;
            let cache_read = match num_as_i64(get_field(details, "cached_tokens"@)) {
                Some(x) => x,
                None => match num_as_i64(get_field(u, "prompt_cache_hit_tokens"@)) {
                    Some(x) => x,
                    None => 0,
                },
            };
            let cache_write = jint_spec(get_field(details, "cache_write_tokens"@));
            let diff = jint_spec(get_field(u, "prompt_tokens"@)).wrapping_sub(cache_read).wrapping_sub(cache_write);
            &&& o.u_output == jint_spec(get_field(u, "completion_tokens"@))
            &&& o.u_cache_read == cache_read
            &&& o.u_cache_write == cache_write
            &&& o.u_input == (if diff < 0 { 0 } else { diff })
            &&& o.u_reasoning == Some(jint_spec(get_field(get_field(u, "completion_tokens_details"@), "reasoning_tokens"@)))
            &&& o.u_total == total_tokens(o.u_input, o.u_output, cache_read, cache_write)
        }),
{
    reveal(chunk_step);
    match oa_choice(chunk) {
        None => {},
        Some(choice) => {
            let st1 = with_out(st, oa_header(st.out, chunk));
            let st3 = match nonempty_str(get_field(choice, "finish_reason"@)) {
                Some(reason) => {
                    let (stop, err) = oa_map_stop(reason);
                    OStateModel {
                        has_finish: true,
                        ..with_out(st1, OOutModel {
                            stop_reason: stop,
                            error_message: match err {
                                Some(m) => Some(m),
                                None => st1.out.error_message,
                            },
                            ..st1.out
                        })
                    }
                },
                None => st1,
            };
            assert(usage_same(st1.out, st3.out));
            if get_field(choice, "delta"@) is Obj {
                lemma_delta_ok(st3, get_field(choice, "delta"@));
            }
        },
    }
}

/// Feeding chunks never removes a block or an event, and never changes the
/// kind of a block or the signature a thinking block got when it was made.
pub proof fn law_openai_chunks_keep_blocks(st: OStateModel, chunks: Seq<JsModel>)
    ensures
        blocks_kept(st.out.content, chunks_fold(st, chunks).out.content),
        loop_events_added(st.events, chunks_fold(st, chunks).events),
        (forall|i: int| 0 <= i < chunks.len() ==> !chunk_finishes(#[trigger] chunks[i])) ==> step_ok(
            st,
            chunks_fold(st, chunks),
        ),
    decreases chunks.len(),
{
    if chunks.len() == 0 {
        lemma_step_ok_refl(st);
    } else {
        let init = chunks.drop_last();
        law_openai_chunks_keep_blocks(st, init);
        let mid = chunks_fold(st, init);
        let last = chunks_fold(st, chunks);
        law_openai_chunk_keeps_blocks(mid, chunks.last());
        lemma_kept_trans(st.out.content, mid.out.content, last.out.content);
        lemma_loop_added_trans(st.events, mid.events, last.events);
        if forall|i: int| 0 <= i < chunks.len() ==> !chunk_finishes(#[trigger] chunks[i]) {
            assert forall|i: int| 0 <= i < init.len() implies !chunk_finishes(#[trigger] init[i]) by {
                assert(init[i] == chunks[i]);
            }
            assert(!chunk_finishes(chunks[chunks.len() - 1]));
            lemma_step_ok_trans(st, mid, last);
        }
    }
}

/// The `*_end` event of block `i`.
pub open spec fn end_event(b: OBlockModel, i: int) -> JsModel {
    match b.kind {
        Kind::Text => oev_ci_text("text_end"@, i, "content"@, b.text),
        Kind::Thinking => oev_ci_text("thinking_end"@, i, "content"@, b.thinking),
        Kind::ToolCall => oev_ci("toolcall_end"@, i),
    }
}

/// The finishing pass over blocks `0..k` adds their `*_end` events in
/// order, changes only tool-call arguments of those blocks, and keeps the
/// stop reason and error message.
proof fn lemma_finish_blocks(o: OOutModel, evs: Seq<JsModel>, k: int)
    requires
        0 <= k <= o.content.len(),
    ensures
        events_kept(evs, finish_blocks(o, evs, k).1),
        finish_blocks(o, evs, k).1.len() == evs.len() + k,
        forall|i: int| 0 <= i < k ==> #[trigger] finish_blocks(o, evs, k).1[evs.len() + i] == end_event(o.content[i], i),
        finish_blocks(o, evs, k).0.content.len() == o.content.len(),
        forall|j: int| k <= j < o.content.len() ==> #[trigger] finish_blocks(o, evs, k).0.content[j] == o.content[j],
        finish_blocks(o, evs, k).0.stop_reason == o.stop_reason,
        finish_blocks(o, evs, k).0.error_message == o.error_message,
    decreases k,
{
    if k > 0 {
        lemma_finish_blocks(o, evs, k - 1);
        let (o1, e1) = finish_blocks(o, evs, k - 1);
        let (o2, e2) = finish_blocks(o, evs, k);
        let b = o1.content[k - 1];
        assert(b == o.content[k - 1]);
        assert(e2 == e1.push(end_event(b, k - 1)));
        assert forall|i: int| #![trigger e2[i]] 0 <= i < evs.len() implies e2[i] == evs[i] by {
            assert(e1[i] == evs[i]);
        }
        assert forall|i: int| 0 <= i < k implies #[trigger] e2[evs.len() + i] == end_event(o.content[i], i) by {
            if i < k - 1 {
                assert(e2[evs.len() + i] == e1[evs.len() + i]);
            }
        }
        assert forall|j: int| k <= j < o.content.len() implies #[trigger] o2.content[j] == o.content[j] by {
            assert(o2.content[j] == o1.content[j]);
        }
    }
}

/// The transcript opens with `start` and closes with one terminal event:
/// `error` exactly when the final message's stop reason is `error` (and
/// then it carries an error message), `done` with the stop reason
/// otherwise.
pub proof fn law_openai_transcript_ends(chunks: Seq<JsModel>, api: Seq<char>, provider: Seq<char>, model: Seq<char>)
    ensures
        ({
            let (o, e) = openai_run(chunks, api, provider, model);
            &&& e.len() >= 2
            &&& e[0] == oev("start"@)
            &&& o.stop_reason == "error"@ ==> e.last() == oev_reason("error"@, "error"@) && o.error_message is Some
            &&& o.stop_reason != "error"@ ==> e.last() == oev_reason("done"@, o.stop_reason)
        }),
{
    let s0 = oa_init(api, provider, model);
    law_openai_chunks_keep_blocks(s0, chunks);
    let st = chunks_fold(s0, chunks);
    lemma_finish_blocks(st.out, st.events, st.out.content.len() as int);
    let (o1, e1) = finish_blocks(st.out, st.events, st.out.content.len() as int);
    assert(e1[0] == st.events[0]);
    assert(st.events[0] == s0.events[0]);
}

/// The order of the events: `start` and the events of the chunks (none of
/// them a `*_end`, `done` or `error`), then one `*_end` event for each
/// block of the final message, in block order, then the terminal event.
pub proof fn law_openai_event_order(chunks: Seq<JsModel>, api: Seq<char>, provider: Seq<char>, model: Seq<char>)
    ensures
        ({
            let st = chunks_fold(oa_init(api, provider, model), chunks);
            let k = st.events.len();
            let n = st.out.content.len();
            let (o, e) = openai_run(chunks, api, provider, model);
            &&& e.len() == k + n + 1
            &&& o.content.len() == n
            &&& forall|i: int| 0 <= i < k ==> is_loop_event(#[trigger] e[i])
            &&& forall|i: int| 0 <= i < n ==> #[trigger] e[k + i] == end_event(st.out.content[i], i)
            &&& forall|i: int| 0 <= i < e.len() - 1 ==> !is_terminal_event(#[trigger] e[i])
        }),
{
    let s0 = oa_init(api, provider, model);
    law_openai_chunks_keep_blocks(s0, chunks);
    let st = chunks_fold(s0, chunks);
    let k = st.events.len();
    let n = st.out.content.len();
    lemma_finish_blocks(st.out, st.events, n as int);
    let (o1, e1) = finish_blocks(st.out, st.events, n as int);
    let (o, e) = openai_run(chunks, api, provider, model);
    assert(e.drop_last() == e1);
    lemma_oev_loop("start"@);
    assert(s0.events[0] == oev("start"@));
    assert forall|i: int| 0 <= i < k implies is_loop_event(#[trigger] e[i]) by {
        assert(e[i] == e1[i]);
        assert(e1[i] == st.events[i]);
        if i > 0 {
            assert(is_loop_event(st.events[i]));
        } else {
            assert(st.events[0] == s0.events[0]);
        }
    }
    assert forall|i: int| 0 <= i < n implies #[trigger] e[k + i] == end_event(st.out.content[i], i) by {
        assert(e[k + i] == e1[k + i]);
    }
    assert forall|i: int| 0 <= i < e.len() - 1 implies !is_terminal_event(#[trigger] e[i]) by {
        if i < k {
            assert(e[i] == e1[i] && e1[i] == st.events[i]);
            let t = event_type(e[i])->0;
            lemma_loop_is_progress(t);
            lemma_progress_not_terminal(e[i], t);
        } else {
            let j = i - k;
            assert(e[k + j] == end_event(st.out.content[j], j));
            lemma_end_event_type(st.out.content[j], j);
            lemma_progress_not_terminal(e[i], event_type(e[i])->0);
        }
    }
}

proof fn lemma_loop_is_progress(t: Seq<char>)
    requires
        is_loop_type(t),
    ensures
        is_progress_type(t),
{
}

proof fn lemma_end_event_type(b: OBlockModel, i: int)
    ensures
        event_type(end_event(b, i)) matches Some(t) && is_progress_type(t),
{
    match b.kind {
        Kind::Text => lemma_event_type(seq![("type"@, s("text_end"@)), ("contentIndex"@, n(i as i64)), ("content"@, s(b.text))], "text_end"@),
        Kind::Thinking => lemma_event_type(seq![("type"@, s("thinking_end"@)), ("contentIndex"@, n(i as i64)), ("content"@, s(b.thinking))], "thinking_end"@),
        Kind::ToolCall => lemma_event_type(seq![("type"@, s("toolcall_end"@)), ("contentIndex"@, n(i as i64))], "toolcall_end"@),
    }
}

/// A stream in which no chunk carries a finish reason ends in an error:
/// "Stream ended without finish_reason".
pub proof fn law_openai_no_finish_is_error(chunks: Seq<JsModel>, api: Seq<char>, provider: Seq<char>, model: Seq<char>)
    requires
        forall|i: int| 0 <= i < chunks.len() ==> !chunk_finishes(#[trigger] chunks[i]),
    ensures
        openai_run(chunks, api, provider, model).0.stop_reason == "error"@,
        openai_run(chunks, api, provider, model).0.error_message == Some("Stream ended without finish_reason"@),
{
    let s0 = oa_init(api, provider, model);
    law_openai_chunks_keep_blocks(s0, chunks);
    let st = chunks_fold(s0, chunks);
    lemma_finish_blocks(st.out, st.events, st.out.content.len() as int);
    let (o1, e1) = finish_blocks(st.out, st.events, st.out.content.len() as int);
    assert(o1.stop_reason == "stop"@);
    reveal_strlit("stop");
    reveal_strlit("error");
    assert("stop"@.len() == 4 && "error"@.len() == 5);
    assert(o1.stop_reason != "error"@);
}

/// The state with another provider name.
pub open spec fn with_provider(st: OStateModel, p: Seq<char>) -> OStateModel {
    OStateModel { out: OOutModel { provider: p, ..st.out }, ..st }
}

proof fn lemma_ensure_tool_provider(st: OStateModel, tc: JsModel, p: Seq<char>)
    ensures
        ensure_tool(with_provider(st, p), tc) == (with_provider(ensure_tool(st, tc).0, p), ensure_tool(st, tc).1),
{
    let sp = with_provider(st, p);
    assert(tool_lookup(sp, tc) == tool_lookup(st, tc));
    assert(tool_create(sp, tc) == with_provider(tool_create(st, tc), p));
    let q = match tool_lookup(st, tc) {
        Some(q) => q,
        None => st.out.content.len() as int,
    };
    let s1 = match tool_lookup(st, tc) {
        Some(_) => st,
        None => tool_create(st, tc),
    };
    assert(tool_backfill(with_provider(s1, p), q, tc) == with_provider(tool_backfill(s1, q, tc), p));
}

proof fn lemma_tool_call_provider(st: OStateModel, tc: JsModel, p: Seq<char>)
    ensures
        tool_call_step(with_provider(st, p), tc) == with_provider(tool_call_step(st, tc), p),
{
    lemma_ensure_tool_provider(st, tc, p);
}

proof fn lemma_tool_calls_provider(st: OStateModel, tcs: Seq<JsModel>, p: Seq<char>)
    ensures
        tool_calls_fold(with_provider(st, p), tcs) == with_provider(tool_calls_fold(st, tcs), p),
    decreases tcs.len(),
{
    if tcs.len() > 0 {
        lemma_tool_calls_provider(st, tcs.drop_last(), p);
        lemma_tool_call_provider(tool_calls_fold(st, tcs.drop_last()), tcs.last(), p);
    }
}

proof fn lemma_delta_provider(st: OStateModel, delta: JsModel, p: Seq<char>)
    ensures
        delta_step(with_provider(st, p), delta) == with_provider(delta_step(st, delta), p),
{
    let sp = with_provider(st, p);
    assert(ensure_text(sp) == (with_provider(ensure_text(st).0, p), ensure_text(st).1));
    let st1 = match nonempty_str(get_field(delta, "content"@)) {
        Some(c) => {
            let (sa, i) = ensure_text(st);
            if 0 <= i < sa.out.content.len() {
                let b = sa.out.content[i];
                emit(set_oblock(sa, i, OBlockModel { text: b.text + c, ..b }), oev_ci_text("text_delta"@, i, "delta"@, c))
            } else {
                sa
            }
        },
        None => st,
    };
    let sp1 = match nonempty_str(get_field(delta, "content"@)) {
        Some(c) => {
            let (sa, i) = ensure_text(sp);
            if 0 <= i < sa.out.content.len() {
                let b = sa.out.content[i];
                emit(set_oblock(sa, i, OBlockModel { text: b.text + c, ..b }), oev_ci_text("text_delta"@, i, "delta"@, c))
            } else {
                sa
            }
        },
        None => sp,
    };
    assert(sp1 == with_provider(st1, p));
    match reasoning_of(delta) {
        Some((field, val)) => {
            assert(ensure_thinking(sp1, field) == (with_provider(ensure_thinking(st1, field).0, p), ensure_thinking(st1, field).1));
        },
        None => {},
    }
    let st2 = match reasoning_of(delta) {
        Some((field, val)) => {
            let (sa, i) = ensure_thinking(st1, field);
            if 0 <= i < sa.out.content.len() {
                let b = sa.out.content[i];
                emit(set_oblock(sa, i, OBlockModel { thinking: b.thinking + val, ..b }), oev_ci_text("thinking_delta"@, i, "delta"@, val))
            } else {
                sa
            }
        },
        None => st1,
    };
    match get_field(delta, "tool_calls"@) {
        JsModel::Arr(tcs) => {
            lemma_tool_calls_provider(st2, tcs, p);
        },
        _ => {},
    }
}

proof fn lemma_chunk_provider(st: OStateModel, chunk: JsModel, p: Seq<char>)
    ensures
        chunk_step(with_provider(st, p), chunk) == with_provider(chunk_step(st, chunk), p),
{
    reveal(chunk_step);
    if chunk is Obj {
        match oa_choice(chunk) {
            None => {},
            Some(choice) => {
                let st1 = with_out(st, oa_header(st.out, chunk));
                let st2 = if !(get_field(chunk, "usage"@) is Obj) && get_field(choice, "usage"@) is Obj {
                    with_out(st1, oa_apply_usage(st1.out, get_field(choice, "usage"@)))
                } else {
                    st1
                };
                let st3 = match nonempty_str(get_field(choice, "finish_reason"@)) {
                    Some(reason) => {
                        let (stop, err) = oa_map_stop(reason);
                        OStateModel {
                            has_finish: true,
                            ..with_out(st2, OOutModel {
                                stop_reason: stop,
                                error_message: match err {
                                    Some(m) => Some(m),
                                    None => st2.out.error_message,
                                },
                                ..st2.out
                            })
                        }
                    },
                    None => st2,
                };
                if get_field(choice, "delta"@) is Obj {
                    lemma_delta_provider(st3, get_field(choice, "delta"@), p);
                }
            },
        }
    }
}

proof fn lemma_chunks_provider(st: OStateModel, chunks: Seq<JsModel>, p: Seq<char>)
    ensures
        chunks_fold(with_provider(st, p), chunks) == with_provider(chunks_fold(st, chunks), p),
    decreases chunks.len(),
{
    if chunks.len() > 0 {
        lemma_chunks_provider(st, chunks.drop_last(), p);
        lemma_chunk_provider(chunks_fold(st, chunks.drop_last()), chunks.last(), p);
    }
}

proof fn lemma_finish_provider(o: OOutModel, evs: Seq<JsModel>, k: int, p: Seq<char>)
    ensures
        finish_blocks(OOutModel { provider: p, ..o }, evs, k) == (
            OOutModel { provider: p, ..finish_blocks(o, evs, k).0 },
            finish_blocks(o, evs, k).1,
        ),
    decreases k,
{
    if !(k <= 0 || k > o.content.len()) {
        lemma_finish_provider(o, evs, k - 1, p);
    }
}

/// The decoder never branches on the provider: runs that differ only in
/// the provider name give the same events, and final messages that differ
/// only in that name.
pub proof fn law_openai_provider_blind(chunks: Seq<JsModel>, api: Seq<char>, p1: Seq<char>, p2: Seq<char>, model: Seq<char>)
    ensures
        openai_run(chunks, api, p2, model).1 == openai_run(chunks, api, p1, model).1,
        openai_run(chunks, api, p2, model).0 == (OOutModel { provider: p2, ..openai_run(chunks, api, p1, model).0 }),
{
    let s1 = oa_init(api, p1, model);
    assert(oa_init(api, p2, model) == with_provider(s1, p2));
    lemma_chunks_provider(s1, chunks, p2);
    let st = chunks_fold(s1, chunks);
    lemma_finish_provider(st.out, st.events, st.out.content.len() as int, p2);
}

/// Whether a chunk is a JSON object (only objects are read).
pub open spec fn is_object_chunk(chunk: JsModel) -> bool {
    chunk is Obj
}

proof fn lemma_chunks_objects_only(st: OStateModel, chunks: Seq<JsModel>)
    ensures
        chunks_fold(st, chunks.filter(|c: JsModel| is_object_chunk(c))) == chunks_fold(st, chunks),
    decreases chunks.len(),
{
    let pred = |c: JsModel| is_object_chunk(c);
    if chunks.len() == 0 {
        assert(chunks.filter(pred) =~= Seq::<JsModel>::empty()) by {
            reveal(Seq::filter);
        }
    } else {
        let init = chunks.drop_last();
        let last = chunks.last();
        assert(chunks == init.push(last));
        init.lemma_filter_push(last, pred);
        lemma_chunks_objects_only(st, init);
        if is_object_chunk(last) {
            let f = init.filter(pred).push(last);
            assert(f.drop_last() == init.filter(pred));
        } else {
            reveal(chunk_step);
        }
    }
}

/// Chunks that are not JSON objects are ignored: two chunk sequences with
/// the same objects in the same order, whatever else lies between them,
/// give the same transcript.
pub proof fn law_openai_non_objects_ignored(a: Seq<JsModel>, b: Seq<JsModel>, api: Seq<char>, provider: Seq<char>, model: Seq<char>)
    requires
        a.filter(|c: JsModel| is_object_chunk(c)) == b.filter(|c: JsModel| is_object_chunk(c)),
    ensures
        decode_openai_spec(a, api, provider, model) == decode_openai_spec(b, api, provider, model),
{
    let s0 = oa_init(api, provider, model);
    lemma_chunks_objects_only(s0, a);
    lemma_chunks_objects_only(s0, b);
}

} // verus!
