use rustclaw::json::{Json, JsonObject};
use rustclaw::transcript::Entry;
use rustclaw::types::{
    estimate_context_tokens, estimate_tokens, truncate32, ContentBlock, Message, StopReason, Usage,
};

fn assistant(content: Vec<ContentBlock>) -> Message {
    Message::Assistant { content, usage: Usage::default(), stop_reason: StopReason::Stop, error: None }
}

#[test]
fn estimates_tokens_at_four_chars_each() {
    assert_eq!(estimate_tokens(400), 100);
    assert_eq!(estimate_tokens(3), 0);
}

#[test]
fn context_estimate_spans_every_message_kind() {
    let msgs = vec![
        Message::user("a".repeat(40)),
        Message::Assistant {
            content: vec![ContentBlock::text("b".repeat(40))],
            usage: Usage::default(),
            stop_reason: StopReason::Stop,
            error: None,
        },
        Message::ToolResult {
            tool_call_id: "t1".into(),
            tool_name: "read".into(),
            content: "c".repeat(40),
            is_error: false,
            blob: None,
        },
    ];
    assert_eq!(estimate_context_tokens(&msgs), 30);
}

#[test]
fn messages_round_trip_through_jsonl() {
    let input = Json::Object(JsonObject::new().with("command", Json::string("ls")));
    let m = Message::Assistant {
        content: vec![ContentBlock::ToolCall { id: "call_1".into(), name: "exec".into(), input }],
        usage: Usage { input: 10, output: 5, ..Default::default() },
        stop_reason: StopReason::ToolUse,
        error: None,
    };
    let line = Entry::Message(m.clone()).to_line();
    assert!(!line.contains('\n'), "a transcript entry must stay on one line");
    assert_eq!(Entry::from_line(&line), Some(Entry::Message(m)));
}

#[test]
fn a_tool_call_counts_its_name_and_its_input_as_json() {
    let input = Json::Object(JsonObject::new().with("command", Json::string("ls")));
    let m = assistant(vec![
        ContentBlock::Thinking { text: "abc".into(), signature: None },
        ContentBlock::ToolCall { id: "c".into(), name: "exec".into(), input },
    ]);
    // "abc", "exec" and {"command":"ls"}
    assert_eq!(m.char_len(), 3 + 4 + 16);
}

#[test]
fn length_is_counted_in_characters() {
    assert_eq!(Message::user("áá".to_string()).char_len(), 2);
    assert_eq!(assistant(vec![ContentBlock::text("日本語".into())]).char_len(), 3);
    assert_eq!(estimate_context_tokens(&[Message::user("á".repeat(40))]), 10);
}

#[test]
fn context_tokens_never_wrap() {
    let u = Usage { input: u32::MAX, output: 5, cache_read: 1, cache_write: 1 };
    assert_eq!(u.context_tokens(), u32::MAX);
    let v = Usage { input: 1, output: 2, cache_read: 3, cache_write: 4 };
    assert_eq!(v.context_tokens(), 10);
}

#[test]
fn a_count_that_is_too_large_keeps_its_low_bits() {
    assert_eq!(truncate32(4_294_967_296 + 7), 7);
    assert_eq!(truncate32(12), 12);
}

#[test]
fn only_an_assistant_turn_has_blocks() {
    assert!(Message::user("x".into()).tool_calls().is_empty());
    assert_eq!(assistant(vec![ContentBlock::text("a".into())]).tool_calls().len(), 1);
}
