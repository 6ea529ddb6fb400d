//! The parts of an Anthropic request that prompt-cache accounting reads.
//!
//! JSON values do not appear here: each part carries the text that is hashed
//! for it (for structured values, their canonical JSON serialisation) and the
//! token count that the caller's tokenizer gave for it.

use vstd::prelude::*;

verus! {

/// A `cache_control` marker: its `type` and optional `ttl`.
#[derive(Debug, Clone)]
pub struct CacheControl {
    pub cache_type: String,
    pub ttl: Option<String>,
}

/// One entry of the system prompt.
#[derive(Debug, Clone)]
pub struct SystemMessage {
    /// The system prompt text, hashed as it stands.
    pub text: String,
    /// The token count of `text`.
    pub tokens: i32,
    pub cache_control: Option<CacheControl>,
}

/// One tool definition.
#[derive(Debug, Clone)]
pub struct Tool {
    /// The canonical JSON of the tool's name, description, input schema and type.
    pub normalized: String,
    /// The token count of `normalized`.
    pub tokens: i32,
    pub cache_control: Option<CacheControl>,
}

/// One block of a message whose content is an array.
#[derive(Debug, Clone)]
pub struct ContentBlock {
    /// The canonical JSON of the block without its `cache_control` member.
    pub normalized: String,
    /// The token count of the block.
    pub tokens: i32,
    /// The block's `cache_control`, where it has a well-formed one.
    pub cache_control: Option<CacheControl>,
}

/// The content of a message.
#[derive(Debug, Clone)]
pub enum MessageContent {
    /// Content given as a string.
    Text { text: String, tokens: i32 },
    /// Content given as an array of blocks.
    Blocks(Vec<ContentBlock>),
    /// Content of any other JSON kind, by its canonical JSON.
    Other { normalized: String, tokens: i32 },
}

/// One message of the conversation.
#[derive(Debug, Clone)]
pub struct Message {
    pub role: String,
    pub content: MessageContent,
}

/// One step of the walk over a request: the bytes it feeds to the hash, the
/// tokens it adds, and the cache marker that follows it, if any.
pub ghost struct Step {
    pub bytes: Seq<u8>,
    pub tokens: int,
    pub cache_control: Option<CacheControl>,
}

} // verus!
