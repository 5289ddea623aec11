//! Streaming decoders for model-provider event streams: an SSE framer over
//! byte chunks, a lenient JSON parser for partial tool arguments, a canonical
//! JSON serializer, and the Anthropic / OpenAI transcript assemblers.

pub mod json;
pub mod text;
pub mod sse;
pub mod partial_json;
pub mod anthropic;
pub mod openai;
pub mod members;

pub use anthropic::decode_anthropic;
pub use openai::decode_openai;
pub use partial_json::{canonical, parse_streaming_json, JsVal};
