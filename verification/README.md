# ai_streaming_core

Streaming decoders for model-provider event streams, verified with Verus.

- `src/sse.rs` — an incremental UTF-8 decoder and the server-sent-event
  framer over ordered byte chunks.
- `src/partial_json.rs` — JSON repair, a lenient parser for unfinished JSON
  (over UTF-16 code units), the streaming-argument parse ladder, and the
  canonical serializer (sorted keys, NaN and infinities as `null`).
- `src/members.rs` — what the canonical serializer makes of an object's
  members.
- `src/anthropic.rs`, `src/openai.rs` — the transcript assemblers: the
  ordered assistant-message events and the final message, and
  `decode_*_canonical`, which read the whole input as one JSON text.
- `src/json.rs`, `src/text.rs` — the JSON value tree with its model, and
  character helpers; the calls into `serde_json` live in `json.rs`.
- `app/lib.rs` — the wasm-bindgen exports over `decode_*_canonical`,
  turning a refused input into a JS error with the parse error's text.

Each public function states its result exactly over spec functions; the
`law_*` proof functions state what holds across calls (chunking does not
change the decoded text, nor the events unless a cut falls between a `\r`
and a `\n`; canonical text does not depend on key order; repairing twice
is repairing once; blocks and thinking signatures are fixed once made; and
so on).
