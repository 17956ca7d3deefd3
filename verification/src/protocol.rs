//! Wire types of the client protocol.

use crate::json::{Json, Val};
use vstd::prelude::*;

verus! {

/// An entry of the conversation, as it is sent to clients.
#[derive(Debug)]
pub struct NormalizedEntry {
    pub kind: &'static str,
    pub blocks: Vec<ContentBlock>,
    pub uuid: Option<String>,
    pub seq: u64,
    pub timestamp: Option<String>,
    pub input_tokens: Option<u64>,
    pub output_tokens: Option<u64>,
}

/// A piece of an entry.
#[derive(Debug)]
pub enum ContentBlock {
    Thinking { text: String },
    Text { text: String },
    ToolUse { name: String, input_summary: String, input: Json },
    ToolResult { content: String, is_error: bool },
}

/// The model of an entry.
#[verifier::ext_equal]
pub struct EntryV {
    pub kind: Seq<char>,
    pub blocks: Seq<BlockV>,
    pub uuid: Option<Seq<char>>,
    pub seq: u64,
    pub timestamp: Option<Seq<char>>,
    pub input_tokens: Option<u64>,
    pub output_tokens: Option<u64>,
}

/// The model of a piece of an entry.
pub enum BlockV {
    Thinking(Seq<char>),
    Text(Seq<char>),
    ToolUse(Seq<char>, Seq<char>, Val),
    ToolResult(Seq<char>, bool),
}

/// The model of an optional text.
pub open spec fn text_view(text: Option<String>) -> Option<Seq<char>> {
    match text {
        Some(s) => Some(s@),
        None => None,
    }
}

impl ContentBlock {
    pub open spec fn view(&self) -> BlockV {
        match self {
            ContentBlock::Thinking { text } => BlockV::Thinking(text@),
            ContentBlock::Text { text } => BlockV::Text(text@),
            ContentBlock::ToolUse { name, input_summary, input } => BlockV::ToolUse(
                name@,
                input_summary@,
                input@,
            ),
            ContentBlock::ToolResult { content, is_error } => BlockV::ToolResult(
                content@,
                *is_error,
            ),
        }
    }
}

/// The models of some pieces.
pub open spec fn block_views(blocks: Seq<ContentBlock>) -> Seq<BlockV> {
    blocks.map_values(|b: ContentBlock| b@)
}

impl NormalizedEntry {
    pub open spec fn view(&self) -> EntryV {
        EntryV {
            kind: self.kind@,
            blocks: block_views(self.blocks@),
            uuid: text_view(self.uuid),
            seq: self.seq,
            timestamp: text_view(self.timestamp),
            input_tokens: self.input_tokens,
            output_tokens: self.output_tokens,
        }
    }
}

/// The envelope of a message of a client.
#[derive(Debug)]
pub struct InboundEnvelope {
    pub stream: String,
    pub data: Json,
}

/// What became of a round.
#[derive(Debug)]
pub enum LifecycleEvent {
    RoundStarted,
    RoundCompleted,
    RoundFailed { message: String },
}

/// The first message of a client.
#[derive(Debug)]
pub struct ConnectPayload {
    pub slug: String,
    pub session_id: Option<String>,
    pub protocol: Option<String>,
    pub timestamp: Option<String>,
}

/// A message for the assistant.
#[derive(Debug)]
pub struct ClaudeMessage {
    pub message: String,
    pub remote: Option<String>,
    pub yolo: bool,
}

/// The decision on a request for approval.
#[derive(Debug)]
pub struct ApprovalDecision {
    pub behavior: String,
    pub message: Option<String>,
}

/// A piece is seen as what it is: its kind, and what it holds.
pub proof fn law_pieces_are_seen_as_they_are(block: ContentBlock)
    ensures
        match block {
            ContentBlock::Thinking { text } => block@ == BlockV::Thinking(text@),
            ContentBlock::Text { text } => block@ == BlockV::Text(text@),
            ContentBlock::ToolUse { name, input_summary, input } => block@ == BlockV::ToolUse(
                name@,
                input_summary@,
                input@,
            ),
            ContentBlock::ToolResult { content, is_error } => block@ == BlockV::ToolResult(
                content@,
                is_error,
            ),
        },
{
}

/// An entry is seen as what it is, piece by piece.
pub proof fn law_entries_are_seen_as_they_are(entry: NormalizedEntry)
    ensures
        entry@.kind == entry.kind@,
        entry@.seq == entry.seq,
        entry@.blocks.len() == entry.blocks@.len(),
        forall|i: int|
            0 <= i < entry.blocks@.len() ==> #[trigger] entry@.blocks[i] == entry.blocks@[i]@,
        entry@.uuid is Some <==> entry.uuid is Some,
        entry.uuid matches Some(u) ==> entry@.uuid == Some(u@),
        entry@.timestamp is Some <==> entry.timestamp is Some,
        entry.timestamp matches Some(t) ==> entry@.timestamp == Some(t@),
        entry@.input_tokens == entry.input_tokens,
        entry@.output_tokens == entry.output_tokens,
{
}

/// A text that may be left out is seen as it is.
pub proof fn law_optional_texts_are_seen_as_they_are(text: Option<String>)
    ensures
        text matches Some(s) ==> text_view(text) == Some(s@),
        text is None ==> text_view(text) is None,
{
}

} // verus!
