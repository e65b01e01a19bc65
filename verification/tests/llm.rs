use std::time::Duration;

use rustclaw::config::{Backend, ModelConfig};
use rustclaw::json::{parse, Json, JsonObject};
use rustclaw::llm::{
    anthropic, is_retryable, openai, parse_retry_after, retry_after, ApiError, Attempts, CallError,
    Provider, Request, ToolSchema, Verdict,
};
use rustclaw::types::{ContentBlock, Message, StopReason, StreamEvent, Usage};

fn json(s: &str) -> Json {
    parse(s).unwrap()
}

fn number(x: f32) -> Json {
    Json::Number(serde_json::Number::from_f64(x as f64).unwrap())
}

fn assistant(content: Vec<ContentBlock>, stop_reason: StopReason) -> Message {
    Message::Assistant { content, usage: Usage::default(), stop_reason, error: None }
}

fn tool_result(id: &str, body: &str) -> Message {
    Message::ToolResult {
        tool_call_id: id.into(),
        tool_name: "exec".into(),
        content: body.into(),
        is_error: false,
        blob: None,
    }
}

// --- errors and retries

fn api(status: u16) -> CallError {
    CallError::Api(ApiError { status: Some(status), message: "x".into(), retry_after: None })
}

#[test]
fn retries_only_transient_statuses() {
    for s in [429, 500, 502, 503, 408] {
        assert!(is_retryable(&api(s)), "{s} should retry");
    }
    for s in [400, 401, 403, 404, 422] {
        assert!(!is_retryable(&api(s)), "{s} should not retry");
    }
}

#[test]
fn honours_server_supplied_retry_after() {
    let e = CallError::Api(ApiError {
        status: Some(429),
        message: "slow down".into(),
        retry_after: Some(Duration::from_secs(7)),
    });
    assert_eq!(retry_after(&e), Some(Duration::from_secs(7)));
}

#[test]
fn errors_without_a_status_are_told_apart() {
    let stream =
        CallError::Api(ApiError { status: None, message: "x".into(), retry_after: None });
    assert!(is_retryable(&stream));
    assert!(is_retryable(&api(409)));
    assert!(is_retryable(&api(599)));
    assert!(!is_retryable(&api(600)));
    let t = |timeout, connect, request| CallError::Transport { timeout, connect, request };
    assert!(is_retryable(&t(true, false, false)));
    assert!(is_retryable(&t(false, true, false)));
    assert!(is_retryable(&t(false, false, true)));
    assert!(!is_retryable(&t(false, false, false)));
    assert!(!is_retryable(&CallError::Other));
    assert_eq!(retry_after(&CallError::Other), None);
}

#[test]
fn the_retry_after_header_is_read_in_seconds() {
    assert_eq!(parse_retry_after(Some(" 7 ")), Some(Duration::from_secs(7)));
    assert_eq!(parse_retry_after(Some("Wed, 21 Oct")), None);
    assert_eq!(parse_retry_after(Some("")), None);
    assert_eq!(parse_retry_after(None), None);
}

#[test]
fn waits_double_and_three_attempts_are_enough() {
    let e = api(500);
    let mut a = Attempts::new();
    assert!(matches!(a.after(false, Some(&e)),
        Verdict::Retry { wait } if wait == Duration::from_millis(500)));
    assert!(matches!(a.after(false, Some(&e)),
        Verdict::Retry { wait } if wait == Duration::from_millis(1000)));
    assert!(matches!(a.after(false, Some(&e)), Verdict::Fail));
}

#[test]
fn an_asked_wait_comes_before_the_own_one() {
    let e = CallError::Api(ApiError {
        status: Some(429),
        message: "x".into(),
        retry_after: Some(Duration::from_secs(9)),
    });
    let mut a = Attempts::new();
    assert!(matches!(a.after(false, Some(&e)),
        Verdict::Retry { wait } if wait == Duration::from_secs(9)));
}

#[test]
fn what_was_shown_is_never_asked_for_again() {
    assert!(matches!(Attempts::new().after(true, Some(&api(500))), Verdict::Fail));
    assert!(matches!(Attempts::new().after(false, Some(&api(401))), Verdict::Fail));
    assert!(matches!(Attempts::new().after(true, None), Verdict::Succeed));
}

// --- choosing a provider

#[test]
fn a_provider_follows_the_configuration() {
    let mut cfg = ModelConfig::default();
    cfg.base_url = "http://h/v1//".into();
    match Provider::new(&cfg, Some("k".into())) {
        Ok(Provider::OpenaiCompat(c)) => {
            assert_eq!(c.url(), "http://h/v1/chat/completions");
            assert_eq!(c.api_key, None, "no variable is named, so there is no key");
        }
        _ => panic!("expected the compatible backend"),
    }

    cfg.backend = Backend::Anthropic;
    match Provider::new(&cfg, Some("k".into())) {
        Err(e) => assert_eq!(
            e,
            "the anthropic backend needs an API key; set ANTHROPIC_API_KEY (config: model.api_key_env)"
        ),
        Ok(_) => panic!("a key is needed"),
    }

    cfg.api_key_env = "MY_KEY".into();
    match Provider::new(&cfg, None) {
        Err(e) => assert!(e.contains("set MY_KEY")),
        Ok(_) => panic!("a key is needed"),
    }
    match Provider::new(&cfg, Some("k".into())) {
        Ok(p) => {
            assert_eq!(p.model_name(), "qwen2.5:3b");
            match p {
                Provider::Anthropic(c) => assert_eq!(c.url(), "http://h/v1/messages"),
                _ => panic!("expected the anthropic backend"),
            }
        }
        Err(e) => panic!("{e}"),
    }
}

#[test]
fn the_local_default_url_is_not_kept_for_anthropic() {
    let mut cfg = ModelConfig::default();
    cfg.api_key_env = "K".into();
    for url in ["", "http://127.0.0.1:11434/v1"] {
        cfg.base_url = url.into();
        let c = anthropic::Client::new(&cfg, Some("k".into())).ok().unwrap();
        assert_eq!(c.url(), "https://api.anthropic.com/v1/messages");
        assert_eq!(c.api_key, "k");
    }
}

// --- Anthropic

#[test]
fn consecutive_tool_results_merge_into_one_user_message() {
    let msgs = vec![tool_result("a", "1"), tool_result("b", "2")];
    let v = anthropic::encode_messages(&msgs);
    let arr = v.as_array().unwrap();
    assert_eq!(arr.len(), 1, "Anthropic rejects back-to-back user messages");
    let content = arr[0].get("content").unwrap();
    assert_eq!(content.as_array().unwrap().len(), 2);
    assert_eq!(content.elem(1).unwrap().str_at("tool_use_id"), Some("b"));
}

#[test]
fn a_user_turn_after_tool_results_starts_a_new_message() {
    let msgs = vec![tool_result("a", "1"), Message::user("thanks".into())];
    let v = anthropic::encode_messages(&msgs);
    let arr = v.as_array().unwrap();
    assert_eq!(arr.len(), 2);
    let first = arr[1].get("content").unwrap().elem(0).unwrap();
    assert_eq!(first.str_at("text"), Some("thanks"));
}

#[test]
fn unsigned_thinking_blocks_are_dropped_on_replay() {
    let msgs = vec![assistant(
        vec![
            ContentBlock::Thinking { text: "unsigned".into(), signature: None },
            ContentBlock::Thinking { text: "signed".into(), signature: Some("sig".into()) },
            ContentBlock::text("answer".into()),
        ],
        StopReason::Stop,
    )];
    let v = anthropic::encode_messages(&msgs);
    let blocks = v.elem(0).unwrap().get("content").unwrap().as_array().unwrap();
    assert_eq!(blocks.len(), 2);
    assert_eq!(blocks[0].str_at("signature"), Some("sig"));
    assert_eq!(blocks[1].str_at("text"), Some("answer"));
}

#[test]
fn empty_assistant_turns_are_omitted() {
    let msgs = vec![assistant(vec![ContentBlock::text("".into())], StopReason::Stop)];
    assert!(anthropic::encode_messages(&msgs).as_array().unwrap().is_empty());
}

fn anthropic_body(temperature: Option<f32>) -> Json {
    let client = anthropic::Client {
        base_url: "https://api.anthropic.com/v1".into(),
        model: "opus-5".into(),
        api_key: "k".into(),
    };
    let msgs = [Message::user("hi".into())];
    client.build_body(&Request {
        system: "s",
        messages: &msgs,
        tools: &[],
        max_tokens: 100,
        temperature: temperature.map(number),
        stream_usage: true,
    })
}

#[test]
fn anthropic_temperature_is_omitted_unless_explicitly_configured() {
    // Opus 5, Sonnet 5 and the 4.6+ family removed sampling parameters:
    // sending `temperature` at all returns a 400.
    assert!(
        anthropic_body(None).get("temperature").is_none(),
        "an unset temperature must not reach the wire"
    );
    let sent = anthropic_body(Some(0.5));
    assert_eq!(sent.get("temperature").unwrap().to_value().as_f64(), Some(0.5));
}

#[test]
fn an_anthropic_request_has_the_documented_shape() {
    assert_eq!(
        anthropic_body(None),
        json(
            r#"{"model":"opus-5","max_tokens":100,"stream":true,"system":"s",
                "messages":[{"role":"user","content":[{"type":"text","text":"hi"}]}]}"#
        )
    );
}

#[test]
fn an_anthropic_turn_is_encoded_block_by_block() {
    let msgs = vec![
        assistant(
            vec![
                ContentBlock::text("a".into()),
                ContentBlock::ToolCall {
                    id: "c1".into(),
                    name: "exec".into(),
                    input: json(r#"{"command":"ls"}"#),
                },
            ],
            StopReason::ToolUse,
        ),
        tool_result("c1", "out"),
    ];
    assert_eq!(
        anthropic::encode_messages(&msgs),
        json(
            r#"[{"role":"assistant","content":[{"type":"text","text":"a"},
                 {"type":"tool_use","id":"c1","name":"exec","input":{"command":"ls"}}]},
                {"role":"user","content":[{"type":"tool_result","tool_use_id":"c1",
                 "content":"out","is_error":false}]}]"#
        )
    );
}

#[test]
fn a_safety_refusal_is_not_reported_as_a_normal_stop() {
    assert_eq!(anthropic::decode_stop("refusal"), StopReason::Error);
    assert_eq!(anthropic::decode_stop("end_turn"), StopReason::Stop);
}

#[test]
fn every_anthropic_stop_is_told_apart() {
    assert_eq!(anthropic::decode_stop("tool_use"), StopReason::ToolUse);
    assert_eq!(anthropic::decode_stop("max_tokens"), StopReason::Length);
}

#[test]
fn reads_cache_token_fields() {
    let u = anthropic::decode_usage(&json(
        r#"{"input_tokens": 10, "output_tokens": 3,
            "cache_read_input_tokens": 900, "cache_creation_input_tokens": 40}"#,
    ));
    assert_eq!(u, Usage { input: 10, output: 3, cache_read: 900, cache_write: 40 });
}

#[test]
fn an_anthropic_stream_is_decoded() {
    let mut d = anthropic::Decoder::new();
    let mut events = Vec::new();
    let frames = [
        ("message_start", r#"{"message":{"usage":{"input_tokens":9}}}"#),
        ("ping", "not json"),
        ("content_block_start", r#"{"content_block":{"type":"text"}}"#),
        ("content_block_delta", r#"{"delta":{"type":"text_delta","text":"hi"}}"#),
        ("content_block_stop", "{}"),
        ("content_block_start", r#"{"content_block":{"type":"tool_use","id":"t","name":"ls"}}"#),
        ("content_block_delta", r#"{"delta":{"type":"input_json_delta","partial_json":"{}"}}"#),
        ("content_block_delta", r#"{"delta":{"type":"thinking_delta","thinking":"hm"}}"#),
        ("content_block_stop", "{}"),
        ("message_delta", r#"{"delta":{"stop_reason":"tool_use"},"usage":{"output_tokens":4}}"#),
        ("message_stop", "{}"),
    ];
    for (event, data) in frames {
        events.extend(d.feed(event, data).unwrap());
    }
    events.extend(d.finish());
    assert_eq!(
        events,
        vec![
            StreamEvent::Usage(Usage { input: 9, ..Default::default() }),
            StreamEvent::TextDelta("hi".into()),
            StreamEvent::ToolCallStart { id: "t".into(), name: "ls".into() },
            StreamEvent::ToolCallDelta("{}".into()),
            StreamEvent::ThinkingDelta("hm".into()),
            StreamEvent::ToolCallEnd,
            StreamEvent::Usage(Usage { output: 4, ..Default::default() }),
            StreamEvent::Done(StopReason::ToolUse),
        ]
    );
}

#[test]
fn an_anthropic_stream_that_breaks_off_closes_its_call() {
    let mut d = anthropic::Decoder::new();
    d.feed("content_block_start", r#"{"content_block":{"type":"tool_use"}}"#).unwrap();
    assert_eq!(
        d.finish(),
        vec![StreamEvent::ToolCallEnd, StreamEvent::Done(StopReason::Stop)]
    );
}

#[test]
fn an_anthropic_error_event_ends_the_stream() {
    let mut d = anthropic::Decoder::new();
    let e = d.feed("error", r#"{"error":{"message":"overloaded"}}"#).unwrap_err();
    assert_eq!(e, ApiError { status: None, message: "overloaded".into(), retry_after: None });
    let e = d.feed("error", "{}").unwrap_err();
    assert_eq!(e.message, "anthropic stream error");
}

#[test]
fn a_refused_anthropic_request_keeps_the_whole_body() {
    let body = "x".repeat(600);
    let e = anthropic::status_error(529, "529 Overloaded", Some("3"), &body);
    assert_eq!(e.status, Some(529));
    assert_eq!(e.message, format!("529 Overloaded: {body}"));
    assert_eq!(e.retry_after, Some(Duration::from_secs(3)));
}

// --- OpenAI-compatible servers

#[test]
fn tool_only_assistant_turn_keeps_a_content_key() {
    let m = assistant(
        vec![ContentBlock::ToolCall {
            id: "c1".into(),
            name: "exec".into(),
            input: json(r#"{"command": "ls"}"#),
        }],
        StopReason::ToolUse,
    );
    let v = openai::encode_message(&m);
    assert!(v.get("content").is_some(), "content key must be present even when null");
    let f = v.get("tool_calls").unwrap().elem(0).unwrap().get("function").unwrap();
    assert_eq!(f.str_at("name"), Some("exec"));
    // Arguments go over the wire as a JSON *string*, not an object.
    assert!(f.get("arguments").unwrap().as_str().is_some());
    assert_eq!(f.str_at("arguments"), Some("{\"command\":\"ls\"}"));
}

#[test]
fn thinking_blocks_are_not_replayed_to_openai_servers() {
    let m = assistant(
        vec![
            ContentBlock::Thinking { text: "secret".into(), signature: None },
            ContentBlock::text("hello".into()),
        ],
        StopReason::Stop,
    );
    assert_eq!(openai::encode_message(&m).str_at("content"), Some("hello"));
}

fn openai_body(temperature: Option<f32>, stream_usage: bool) -> Json {
    let client = openai::Client {
        base_url: "http://localhost/v1".into(),
        model: "m".into(),
        api_key: None,
    };
    let msgs = [Message::user("hi".into())];
    client.build_body(&Request {
        system: "s",
        messages: &msgs,
        tools: &[],
        max_tokens: 100,
        temperature: temperature.map(number),
        stream_usage,
    })
}

#[test]
fn openai_temperature_is_omitted_unless_explicitly_configured() {
    assert!(openai_body(None, true).get("temperature").is_none());
    // f32 -> f64 widening makes an exact compare brittle; the point is
    // that the field is present and carries the value.
    let sent = openai_body(Some(0.5), true);
    let t = sent.get("temperature").unwrap().to_value().as_f64().unwrap();
    assert!((t - 0.5).abs() < 1e-6);
}

#[test]
fn stream_options_is_sent_only_when_enabled() {
    assert!(openai_body(None, true).get("stream_options").is_some());
    // A strict server answers 400/422 on the unknown field.
    assert!(openai_body(None, false).get("stream_options").is_none());
}

#[test]
fn a_compatible_request_has_the_documented_shape() {
    assert_eq!(
        openai_body(None, true),
        json(
            r#"{"model":"m","max_tokens":100,"stream":true,
                "stream_options":{"include_usage":true},
                "messages":[{"role":"system","content":"s"},{"role":"user","content":"hi"}]}"#
        )
    );
}

#[test]
fn tools_are_advertised_in_each_dialect() {
    let t = ToolSchema {
        name: "ls",
        description: "d",
        input_schema: Json::Object(JsonObject::new().with("type", Json::string("object"))),
    };
    assert_eq!(
        openai::encode_tool(&t).to_text(),
        r#"{"function":{"description":"d","name":"ls","parameters":{"type":"object"}},"type":"function"}"#
    );
    assert_eq!(
        anthropic::encode_tool(&t).to_text(),
        r#"{"description":"d","input_schema":{"type":"object"},"name":"ls"}"#
    );
}

#[test]
fn maps_finish_reasons() {
    assert_eq!(openai::decode_stop("tool_calls"), StopReason::ToolUse);
    assert_eq!(openai::decode_stop("length"), StopReason::Length);
    assert_eq!(openai::decode_stop("stop"), StopReason::Stop);
}

#[test]
fn reads_cached_prompt_tokens_when_the_server_reports_them() {
    let u = openai::decode_usage(&json(
        r#"{"prompt_tokens": 100, "completion_tokens": 20,
            "prompt_tokens_details": {"cached_tokens": 64}}"#,
    ));
    assert_eq!(u, Usage { input: 100, output: 20, cache_read: 64, cache_write: 0 });
}

fn decode(frames: &[&str]) -> Vec<StreamEvent> {
    let mut d = openai::Decoder::new();
    let mut out = Vec::new();
    for f in frames {
        out.extend(d.feed(f).unwrap());
        if d.is_done() {
            break;
        }
    }
    out.extend(d.finish());
    out
}

#[test]
fn parallel_calls_are_told_apart_by_index_id_or_name() {
    let start = |id: &str, name: &str| StreamEvent::ToolCallStart {
        id: id.into(),
        name: name.into(),
    };
    let arg = |s: &str| StreamEvent::ToolCallDelta(s.into());
    let end = || StreamEvent::ToolCallEnd;

    let by_index = decode(&[
        r#"{"choices":[{"delta":{"tool_calls":[{"index":0,"id":"a","function":{"name":"x","arguments":"1"}}]}}]}"#,
        r#"{"choices":[{"delta":{"tool_calls":[{"index":0,"function":{"arguments":"2"}}]}}]}"#,
        r#"{"choices":[{"delta":{"tool_calls":[{"index":1,"id":"b","function":{"name":"y"}}]}}]}"#,
        "[DONE]",
    ]);
    assert_eq!(
        by_index,
        vec![
            start("a", "x"), arg("1"), arg("2"), end(), start("b", "y"), end(),
            StreamEvent::Done(StopReason::Stop),
        ]
    );

    let by_id = decode(&[
        r#"{"choices":[{"delta":{"tool_calls":[{"id":"a","function":{"name":"x"}}]}}]}"#,
        r#"{"choices":[{"delta":{"tool_calls":[{"id":"b","function":{"name":"y"}}]}}]}"#,
    ]);
    assert_eq!(by_id.iter().filter(|e| matches!(e, StreamEvent::ToolCallStart { .. })).count(), 2);

    let by_name = decode(&[
        r#"{"choices":[{"delta":{"tool_calls":[{"function":{"name":"x"}},{"function":{"name":"y"}}]}}]}"#,
    ]);
    assert_eq!(
        by_name,
        vec![
            start("call_0", "x"), end(), start("call_0", "y"), end(),
            StreamEvent::Done(StopReason::Stop),
        ]
    );
}

#[test]
fn text_reasoning_and_usage_are_read_from_one_chunk() {
    let out = decode(&[
        ": keepalive",
        r#"{"usage":{"prompt_tokens":1},"choices":[{"delta":{"content":"a","reasoning_content":"b"},"finish_reason":"length"}]}"#,
        r#"{"usage":null,"choices":[]}"#,
        "[DONE]",
        r#"{"choices":[{"delta":{"content":"never"}}]}"#,
    ]);
    assert_eq!(
        out,
        vec![
            StreamEvent::Usage(Usage { input: 1, ..Default::default() }),
            StreamEvent::TextDelta("a".into()),
            StreamEvent::ThinkingDelta("b".into()),
            StreamEvent::Done(StopReason::Length),
        ]
    );
}

#[test]
fn an_error_in_the_stream_is_reported() {
    let mut d = openai::Decoder::new();
    let e = d.feed(r#"{"error":{"message":"no model"}}"#).unwrap_err();
    assert_eq!(e, ApiError { status: None, message: "no model".into(), retry_after: None });
    let e = d.feed(r#"{"error":"x"}"#).unwrap_err();
    assert_eq!(e.message, "provider returned an error");
}

#[test]
fn a_refused_request_is_reported_with_a_bounded_body() {
    let e = openai::status_error(503, "503 Service Unavailable", None, &"x".repeat(600));
    assert_eq!(e.status, Some(503));
    assert_eq!(e.message, format!("503 Service Unavailable: {}…", "x".repeat(500)));
    assert_eq!(e.retry_after, None);
    assert_eq!(openai::truncate("short", 500), "short");
    // A character that starts before the limit is kept whole.
    assert_eq!(openai::truncate("aáb", 2), "aá…");
}
