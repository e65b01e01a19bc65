use rustclaw::compact::{
    add_to_summary, apply, bound_summary, context_tokens, find_cut_point, render_for_summary,
    should_compact, summary_ask, summary_request, MAX_SUMMARY_CHARS,
};
use rustclaw::json::{Json, JsonObject};
use rustclaw::types::{ContentBlock, Message, StopReason, StreamEvent, Usage};

fn user(n: usize) -> Message {
    Message::user("u".repeat(n))
}

fn tool_result(n: usize) -> Message {
    Message::ToolResult {
        tool_call_id: "c".into(),
        tool_name: "exec".into(),
        content: "t".repeat(n),
        is_error: false,
        blob: None,
    }
}

fn assistant(n: usize) -> Message {
    Message::Assistant {
        content: vec![ContentBlock::text("a".repeat(n))],
        usage: Usage::default(),
        stop_reason: StopReason::Stop,
        error: None,
    }
}

#[test]
fn compacts_only_once_the_reserve_is_eaten_into() {
    assert!(!should_compact(100_000, 200_000));
    assert!(should_compact(190_000, 200_000));
    // A window smaller than the reserve must still be able to trigger
    // rather than underflowing to a huge threshold.
    assert!(should_compact(1, 8_000));
}

#[test]
fn the_threshold_itself_does_not_compact() {
    assert!(!should_compact(200_000 - 16_384, 200_000));
    assert!(should_compact(200_000 - 16_384 + 1, 200_000));
}

#[test]
fn prefers_the_providers_own_token_count_over_the_estimate() {
    let msgs = vec![user(4000)];
    let reported = Usage { input: 12_345, ..Default::default() };
    assert_eq!(context_tokens(&msgs, &reported), 12_345);
    assert_eq!(context_tokens(&msgs, &Usage::default()), 1000);
}

#[test]
fn the_cut_lands_on_a_user_message_so_no_tool_result_is_orphaned() {
    // Each message is 40k chars = 10k tokens, so the tail fills quickly.
    let msgs = vec![
        user(40_000),
        assistant(40_000),
        tool_result(40_000),
        user(40_000),
        assistant(40_000),
    ];
    let cut = find_cut_point(&msgs);
    assert!(
        matches!(msgs[cut], Message::User { .. }),
        "cut landed on a non-user message at {cut}"
    );
    assert_eq!(cut, 3);
}

#[test]
fn never_cuts_away_the_entire_transcript() {
    // A single enormous turn has no earlier boundary to cut at.
    let msgs = vec![user(400_000), assistant(400_000)];
    let cut = find_cut_point(&msgs);
    assert!(cut < msgs.len(), "cut must leave something behind");
    assert_eq!(cut, 0);
}

#[test]
fn a_short_transcript_is_kept_whole() {
    assert_eq!(find_cut_point(&[user(10), assistant(10), user(10)]), 0);
    assert_eq!(find_cut_point(&[]), 0);
}

#[test]
fn apply_puts_the_summary_first_and_keeps_the_tail() {
    let msgs = vec![user(10), assistant(10), user(20), assistant(20)];
    let out = apply("SUMMARY", &msgs, 2);
    assert_eq!(out.len(), 3);
    match &out[0] {
        Message::User { content } => assert!(content.contains("SUMMARY")),
        _ => panic!("summary must be the first message"),
    }
    assert_eq!(out[1], msgs[2]);
    assert_eq!(
        out[0],
        Message::user("[Summary of the earlier conversation]\n\nSUMMARY".to_string())
    );
}

#[test]
fn rendering_bounds_tool_output() {
    let msgs = vec![tool_result(100_000)];
    assert!(render_for_summary(&msgs).len() < 3000);
}

#[test]
fn rendering_names_tool_calls() {
    let input = Json::Object(JsonObject::new().with("pattern", Json::string("x")));
    let msgs = vec![Message::Assistant {
        content: vec![ContentBlock::ToolCall { id: "c".into(), name: "grep".into(), input }],
        usage: Usage::default(),
        stop_reason: StopReason::ToolUse,
        error: None,
    }];
    assert!(render_for_summary(&msgs).contains("called grep"));
    assert_eq!(
        render_for_summary(&msgs),
        "ASSISTANT: [called grep with {\"pattern\":\"x\"}]\n\n"
    );
}

#[test]
fn rendering_leaves_reasoning_out_and_flags_failures() {
    let msgs = vec![
        Message::user("hola".into()),
        Message::Assistant {
            content: vec![
                ContentBlock::Thinking { text: "hm".into(), signature: None },
                ContentBlock::text("ok".into()),
            ],
            usage: Usage::default(),
            stop_reason: StopReason::Stop,
            error: None,
        },
        Message::ToolResult {
            tool_call_id: "c".into(),
            tool_name: "exec".into(),
            content: "boom".into(),
            is_error: true,
            blob: None,
        },
    ];
    assert_eq!(
        render_for_summary(&msgs),
        "USER: hola\n\nASSISTANT: ok\n\nTOOL exec (error): boom\n\n"
    );
}

#[test]
fn the_summary_request_carries_the_transcript_and_no_tools() {
    let ask = summary_ask(&[Message::user("hola".into())]);
    assert_eq!(
        ask,
        Message::user(
            "Summarize this conversation:\n\n<transcript>\nUSER: hola\n\n\n</transcript>".into()
        )
    );
    let asked = [ask];
    let req = summary_request(&asked);
    assert!(req.tools.is_empty());
    assert_eq!(req.max_tokens, 4096);
    assert_eq!(req.temperature, None);
    assert!(!req.stream_usage);
    assert!(req.system.starts_with("You are summarizing a conversation"));
}

#[test]
fn only_text_reaches_the_summary() {
    let mut s = String::new();
    add_to_summary(&mut s, &StreamEvent::TextDelta("a".into()));
    add_to_summary(&mut s, &StreamEvent::ThinkingDelta("b".into()));
    add_to_summary(&mut s, &StreamEvent::TextDelta("c".into()));
    add_to_summary(&mut s, &StreamEvent::Done(StopReason::Stop));
    assert_eq!(s, "ac");
}

#[test]
fn a_summary_is_cut_on_a_char_boundary() {
    let s = format!("x{}", "á".repeat(MAX_SUMMARY_CHARS));
    let cut = bound_summary(&s);
    assert_eq!(cut.len(), MAX_SUMMARY_CHARS - 1);
    assert_eq!(bound_summary("short"), "short");
}
