use easement::entry::{
    AssistantContentBlock, AssistantEntry, AssistantMessage, Entry, TextBlock, ThinkingBlock,
    ToolResultBlock, ToolResultContent, ToolUseBlock, Usage, UserContent, UserContentBlock,
    UserEntry, UserMessage,
};
use easement::json::Json;
use easement::normalize::{summarize_tool_input, try_normalize};
use easement::protocol::ContentBlock;
use easement::serial::read;

fn user(content: UserContent) -> UserEntry {
    UserEntry {
        is_sidechain: false,
        uuid: Some("u-1".to_owned()),
        timestamp: Some("then".to_owned()),
        message: UserMessage { content },
    }
}
fn assistant(content: Vec<AssistantContentBlock>, usage: Option<Usage>) -> AssistantEntry {
    AssistantEntry {
        is_sidechain: false,
        uuid: None,
        timestamp: None,
        message: AssistantMessage { content, usage },
    }
}
fn block(text: &str) -> TextBlock {
    TextBlock { text: text.to_owned() }
}
fn value(text: &str) -> Json {
    read(text).unwrap()
}

#[test]
fn what_the_user_said_is_shown() {
    let entry = Entry::User(user(UserContent::Text("hello".to_owned())));
    let shown = try_normalize(entry, 7).unwrap();
    assert_eq!(shown.kind, "user");
    assert_eq!(shown.uuid.as_deref(), Some("u-1"));
    assert_eq!(shown.timestamp.as_deref(), Some("then"));
    assert_eq!(shown.seq, 7);
    assert_eq!((shown.input_tokens, shown.output_tokens), (None, None));
    assert!(matches!(&shown.blocks[..], [ContentBlock::Text { text }] if text == "hello"));
}

#[test]
fn answers_of_tools_are_shown() {
    let answer = |content, is_error| {
        UserContentBlock::ToolResult(ToolResultBlock { content, is_error })
    };
    let entry = Entry::User(user(UserContent::Blocks(vec![
        answer(Some(ToolResultContent::Text("plain".to_owned())), true),
        UserContentBlock::Unknown,
        answer(
            Some(ToolResultContent::Blocks(vec![
                value("{\"text\":\"one\"}"),
                value("{\"image\":1}"),
                value("{\"text\":\"two\"}"),
            ])),
            false,
        ),
        answer(None, false),
        UserContentBlock::Text(block("and")),
    ])));
    let shown = try_normalize(entry, 1).unwrap();
    let seen: Vec<(String, bool)> = shown
        .blocks
        .iter()
        .map(|b| match b {
            ContentBlock::ToolResult { content, is_error } => (content.clone(), *is_error),
            ContentBlock::Text { text } => (text.clone(), false),
            other => panic!("unexpected {other:?}"),
        })
        .collect();
    assert_eq!(
        seen,
        [
            ("plain".to_owned(), true),
            ("one\ntwo".to_owned(), false),
            (String::new(), false),
            ("and".to_owned(), false)
        ]
    );
}

#[test]
fn what_the_assistant_said_is_shown() {
    let entry = Entry::Assistant(assistant(
        vec![
            AssistantContentBlock::Thinking(ThinkingBlock { thinking: "hm".to_owned() }),
            AssistantContentBlock::Unknown,
            AssistantContentBlock::Text(block("so")),
            AssistantContentBlock::ToolUse(ToolUseBlock {
                name: "Bash".to_owned(),
                input: value("{\"command\":\"ls\"}"),
            }),
        ],
        Some(Usage { input_tokens: Some(3), output_tokens: None }),
    ));
    let shown = try_normalize(entry, 2).unwrap();
    assert_eq!(shown.kind, "assistant");
    assert_eq!((shown.input_tokens, shown.output_tokens), (Some(3), None));
    assert_eq!(shown.blocks.len(), 3);
    assert!(matches!(&shown.blocks[0], ContentBlock::Thinking { text } if text == "hm"));
    assert!(matches!(&shown.blocks[2], ContentBlock::ToolUse { name, input_summary, .. }
        if name == "Bash" && input_summary == "ls"));
}

#[test]
fn side_chains_and_empty_entries_are_left_out() {
    let mut side = user(UserContent::Text("x".to_owned()));
    side.is_sidechain = true;
    assert!(try_normalize(Entry::User(side), 1).is_none());
    let mut side = assistant(vec![AssistantContentBlock::Text(block("x"))], None);
    side.is_sidechain = true;
    assert!(try_normalize(Entry::Assistant(side), 1).is_none());
    assert!(try_normalize(Entry::Other, 1).is_none());
    let empty = user(UserContent::Blocks(vec![UserContentBlock::Unknown]));
    assert!(try_normalize(Entry::User(empty), 1).is_none());
    assert!(try_normalize(Entry::Assistant(assistant(vec![], None)), 1).is_none());
}

#[test]
fn inputs_are_summarized() {
    let input = value("{\"command\":\"ls\",\"file_path\":\"/f\",\"pattern\":\"*\",\"prompt\":\"p\"}");
    for (tool, summary) in [
        ("Bash", "ls"),
        ("Read", "/f"),
        ("Write", "/f"),
        ("Edit", "/f"),
        ("Glob", "*"),
        ("Grep", "*"),
        ("Task", "p"),
        ("Other", "command, file_path, pattern, prompt"),
    ] {
        assert_eq!(summarize_tool_input(tool, &input), summary);
    }
    assert_eq!(summarize_tool_input("Bash", &Json::Null), "");
    assert_eq!(summarize_tool_input("Other", &Json::Null), "");
    assert_eq!(summarize_tool_input("Task", &Json::Null), "");
    let long = Json::object().with("prompt", Json::text(&"x".repeat(81)));
    assert_eq!(summarize_tool_input("Task", &long), "x".repeat(80) + "...");
    let keys = Json::object()
        .with("b", Json::Null)
        .with("ü", Json::Null)
        .with("a", Json::Null)
        .with("b", Json::Null)
        .with("ab", Json::Null)
        .with("B", Json::Null)
        .with("", Json::Null);
    assert_eq!(summarize_tool_input("Other", &keys), ", B, a, ab, b, ü");
}
