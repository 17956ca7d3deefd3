//! The entries of a conversation, as far as a client sees them.

use crate::json::Json;
use vstd::prelude::*;

verus! {

/// An entry of a conversation.
#[derive(Debug)]
pub enum Entry {
    User(UserEntry),
    Assistant(AssistantEntry),
    /// Progress, system notes and the like.
    Other,
}

/// What the user said, or what a tool answered.
#[derive(Debug)]
pub struct UserEntry {
    pub is_sidechain: bool,
    pub uuid: Option<String>,
    pub timestamp: Option<String>,
    pub message: UserMessage,
}

#[derive(Debug)]
pub struct UserMessage {
    pub content: UserContent,
}

#[derive(Debug)]
pub enum UserContent {
    Text(String),
    Blocks(Vec<UserContentBlock>),
}

#[derive(Debug)]
pub enum UserContentBlock {
    ToolResult(ToolResultBlock),
    Text(TextBlock),
    Unknown,
}

#[derive(Debug)]
pub struct ToolResultBlock {
    pub content: Option<ToolResultContent>,
    pub is_error: bool,
}

#[derive(Debug)]
pub enum ToolResultContent {
    Text(String),
    Blocks(Vec<Json>),
}

#[derive(Debug)]
pub struct TextBlock {
    pub text: String,
}

/// What the assistant said.
#[derive(Debug)]
pub struct AssistantEntry {
    pub is_sidechain: bool,
    pub uuid: Option<String>,
    pub timestamp: Option<String>,
    pub message: AssistantMessage,
}

#[derive(Debug)]
pub struct AssistantMessage {
    pub content: Vec<AssistantContentBlock>,
    pub usage: Option<Usage>,
}

#[derive(Debug)]
pub enum AssistantContentBlock {
    Thinking(ThinkingBlock),
    Text(TextBlock),
    ToolUse(ToolUseBlock),
    Unknown,
}

#[derive(Debug)]
pub struct ThinkingBlock {
    pub thinking: String,
}

#[derive(Debug)]
pub struct ToolUseBlock {
    pub name: String,
    pub input: Json,
}

/// How many tokens a message took.
#[derive(Debug)]
pub struct Usage {
    pub input_tokens: Option<u64>,
    pub output_tokens: Option<u64>,
}

} // verus!
