use rustclaw::agent::{
    compaction_failed, summarize_input, tool_finished, Action, Agent, AgentEvent, Assembly, Report,
    ToolRun, ToolStep, Turn,
};
use rustclaw::config::Config;
use rustclaw::json::{parse, Json};
use rustclaw::llm::openai::{encode_message, Decoder};
use rustclaw::session::{Entry, Session};
use rustclaw::tools::{find, unknown, ToolOutput};
use rustclaw::types::{ContentBlock, Message, StopReason, StreamEvent, Usage};

fn json(s: &str) -> Json {
    parse(s).unwrap()
}

fn agent() -> Agent {
    let mut cfg = Config::default();
    cfg.model.model = "stub".into();
    cfg.agent.system_prompt = "be brief".into();
    let session = Session::open("t1", None).unwrap();
    Agent::new(cfg, session, None, "/home".into()).ok().unwrap()
}

/// What a model answers with: the frames it streams, or the failure of the call.
enum Script {
    Frames(Vec<&'static str>),
    Failure(&'static str),
}

struct Outcome {
    reply: Option<String>,
    events: Vec<AgentEvent>,
    model_calls: usize,
}

/// Runs a turn against canned model answers and canned tools.
fn run_turn(
    agent: &mut Agent,
    input: &str,
    scripts: Vec<Script>,
    cancel_after: Option<usize>,
    typed: Vec<&str>,
    tool: fn(&str, &Json) -> ToolOutput,
) -> Outcome {
    let mut turn = Turn::new(input.into(), agent.cfg.agent.max_iterations, agent.last_usage);
    let mut scripts = scripts.into_iter();
    let mut typed: Vec<String> = typed.into_iter().map(|s| s.to_string()).collect();
    let mut events = Vec::new();
    let mut model_calls = 0;
    let mut report = Report::Begin;
    loop {
        let cancelled = cancel_after.is_some_and(|n| model_calls >= n);
        let step = turn.step(report);
        events.extend(step.shown);
        report = match step.action {
            Action::Append(ms) => {
                for m in ms {
                    agent.session.append(m);
                }
                Report::Written(true)
            }
            Action::AskCancelled => Report::Cancelled(cancelled),
            Action::TakeQueue => {
                Report::Queued(if typed.is_empty() { None } else { Some(typed.remove(0)) })
            }
            Action::Compact => Report::Compacted { ok: true, changed: false },
            Action::CallModel => {
                model_calls += 1;
                match scripts.next().expect("a script for every model call") {
                    Script::Failure(e) => Report::Failure(e.into()),
                    Script::Frames(frames) => {
                        let mut decoder = Decoder::new();
                        let mut answer = Assembly::new();
                        let mut all = Vec::new();
                        for f in frames {
                            all.extend(decoder.feed(f).unwrap());
                            if decoder.is_done() {
                                break;
                            }
                        }
                        all.extend(decoder.finish());
                        for ev in &all {
                            events.extend(answer.feed(ev));
                        }
                        Report::Answer(answer.finish(false))
                    }
                }
            }
            Action::RunTools(calls) => {
                let mut run = ToolRun::new(&calls);
                loop {
                    match run.next(cancelled) {
                        ToolStep::Done => break,
                        ToolStep::Skip(m) => agent.session.append(m),
                        ToolStep::Run { id, name, input, start } => {
                            events.push(start);
                            let out = match find(&name) {
                                Some(_) => tool(&name, &input),
                                None => unknown(&name),
                            };
                            let (shown, m) =
                                tool_finished(&id, &name, out.is_error, out.content, None);
                            events.push(shown);
                            agent.session.append(m);
                        }
                    }
                }
                Report::ToolsDone(true)
            }
            Action::Finish(reply) => {
                agent.last_usage = turn.usage();
                return Outcome { reply, events, model_calls };
            }
        };
    }
}

fn no_tool(name: &str, _: &Json) -> ToolOutput {
    panic!("{name} must not run")
}

fn answer(text: &'static str) -> Script {
    Script::Frames(vec![
        text,
        r#"{"choices":[{"delta":{},"finish_reason":"stop"}]}"#,
        "[DONE]",
    ])
}

#[test]
fn tool_input_is_rendered_on_one_line_and_bounded() {
    let v = json(r#"{"command": "echo a\nb", "cwd": "/tmp"}"#);
    let s = summarize_input(&v);
    assert!(!s.contains('\n'), "progress lines must not wrap the display");
    assert!(s.contains("echo a"));
    assert_eq!(s, "command=echo a⏎b cwd=/tmp");

    let long = json(&format!(r#"{{"content":"{}"}}"#, "x".repeat(1000)));
    assert!(summarize_input(&long).chars().count() <= 120);
}

#[test]
fn non_object_tool_input_still_renders() {
    assert_eq!(summarize_input(&Json::string("bare")), "\"bare\"");
    assert_eq!(summarize_input(&json(r#"{"n":[1,null]}"#)), "n=[1,null]");
}

#[test]
fn a_plain_reply_streams_through_and_lands_in_the_transcript() {
    let script = Script::Frames(vec![
        r#"{"choices":[{"delta":{"content":"Hola"}}]}"#,
        r#"{"choices":[{"delta":{"content":", qué tal"}}]}"#,
        r#"{"choices":[{"delta":{},"finish_reason":"stop"}],"usage":{"prompt_tokens":11,"completion_tokens":4}}"#,
        "[DONE]",
    ]);
    let mut a = agent();
    let out = run_turn(&mut a, "hola", vec![script], None, vec![], no_tool);

    assert_eq!(out.reply.as_deref(), Some("Hola, qué tal"));

    // The transcript holds the user turn and the assistant turn, with usage.
    assert_eq!(a.session.messages.len(), 2);
    match &a.session.messages[1] {
        Message::Assistant { usage, stop_reason, .. } => {
            assert_eq!(usage.input, 11);
            assert_eq!(usage.output, 4);
            assert_eq!(*stop_reason, StopReason::Stop);
        }
        other => panic!("expected an assistant message, got {other:?}"),
    }

    // Deltas were streamed, not just delivered at the end.
    let deltas: Vec<&str> = out
        .events
        .iter()
        .filter_map(|ev| match ev {
            AgentEvent::TextDelta(t) => Some(t.as_str()),
            _ => None,
        })
        .collect();
    assert_eq!(deltas, vec!["Hola", ", qué tal"]);
    assert_eq!(out.events[0], AgentEvent::TurnStart);
    let usage = Usage { input: 11, output: 4, ..Default::default() };
    assert_eq!(out.events.last(), Some(&AgentEvent::TurnEnd { usage }));
}

#[test]
fn a_tool_call_is_executed_and_its_result_feeds_the_next_model_call() {
    // Turn 1: the model asks to run a command, with the arguments split across
    // deltas the way a real server sends them.
    let call = Script::Frames(vec![
        r#"{"choices":[{"delta":{"tool_calls":[{"index":0,"id":"call_1","function":{"name":"exec","arguments":""}}]}}]}"#,
        r#"{"choices":[{"delta":{"tool_calls":[{"index":0,"function":{"arguments":"{\"comm"}}]}}]}"#,
        r#"{"choices":[{"delta":{"tool_calls":[{"index":0,"function":{"arguments":"and\": \"echo ping\"}"}}]}}]}"#,
        r#"{"choices":[{"delta":{},"finish_reason":"tool_calls"}]}"#,
        "[DONE]",
    ]);
    // Turn 2: having seen the output, the model answers.
    let reply = answer(r#"{"choices":[{"delta":{"content":"it said ping"}}]}"#);
    fn exec(name: &str, input: &Json) -> ToolOutput {
        assert_eq!(name, "exec");
        assert_eq!(input.str_at("command"), Some("echo ping"));
        ToolOutput::ok("ping\n".into())
    }
    let mut a = agent();
    let out = run_turn(&mut a, "run echo ping", vec![call, reply], None, vec![], exec);
    assert_eq!(out.reply.as_deref(), Some("it said ping"));

    // user, assistant(tool_call), toolResult, assistant(answer)
    assert_eq!(a.session.messages.len(), 4);
    match &a.session.messages[2] {
        Message::ToolResult { tool_call_id, tool_name, content, is_error, .. } => {
            assert_eq!(tool_call_id, "call_1");
            assert_eq!(tool_name, "exec");
            assert!(!is_error, "echo should succeed: {content}");
            assert!(content.contains("ping"), "tool output not captured: {content}");
        }
        other => panic!("expected a tool result, got {other:?}"),
    }
    assert_eq!(out.model_calls, 2, "expected two model calls");
    // The second request must carry the tool result back to the model,
    // otherwise the model is answering blind.
    let sent = encode_message(&a.session.messages[2]).to_text();
    assert!(sent.contains("\"role\":\"tool\""), "tool result was not replayed upstream");
    assert!(sent.contains("ping"));
}

#[test]
fn a_failing_tool_is_reported_as_an_error_result_and_the_turn_continues() {
    let call = Script::Frames(vec![
        r#"{"choices":[{"delta":{"tool_calls":[{"index":0,"id":"c1","function":{"name":"read","arguments":"{\"path\":\"/definitely/not/here\"}"}}]}}]}"#,
        r#"{"choices":[{"delta":{},"finish_reason":"tool_calls"}]}"#,
        "[DONE]",
    ]);
    let reply = answer(r#"{"choices":[{"delta":{"content":"that file is missing"}}]}"#);
    fn read(_: &str, _: &Json) -> ToolOutput {
        ToolOutput::err("cannot read /definitely/not/here".into())
    }
    let mut a = agent();
    let out = run_turn(&mut a, "read it", vec![call, reply], None, vec![], read);
    assert_eq!(out.reply.as_deref(), Some("that file is missing"));
    match &a.session.messages[2] {
        Message::ToolResult { is_error, .. } => {
            assert!(*is_error, "a failed read must be flagged, not passed off as success")
        }
        other => panic!("expected a tool result, got {other:?}"),
    }
}

#[test]
fn an_unknown_tool_is_reported_back_to_the_model_rather_than_crashing() {
    let call = Script::Frames(vec![
        r#"{"choices":[{"delta":{"tool_calls":[{"index":0,"id":"c1","function":{"name":"teleport","arguments":"{}"}}]}}]}"#,
        r#"{"choices":[{"delta":{},"finish_reason":"tool_calls"}]}"#,
        "[DONE]",
    ]);
    let reply = answer(r#"{"choices":[{"delta":{"content":"no such tool"}}]}"#);
    let mut a = agent();
    run_turn(&mut a, "teleport me", vec![call, reply], None, vec![], no_tool);
    match &a.session.messages[2] {
        Message::ToolResult { content, is_error, .. } => {
            assert!(*is_error);
            assert!(content.contains("unknown tool"), "{content}");
            // The message should tell the model what it *can* call.
            assert!(content.contains("exec"), "{content}");
        }
        other => panic!("expected a tool result, got {other:?}"),
    }
}

#[test]
fn an_http_error_from_the_provider_ends_the_turn_without_losing_the_session() {
    let mut a = agent();
    let out = run_turn(&mut a, "hola", vec![Script::Failure("refused")], None, vec![], no_tool);
    assert_eq!(out.reply.as_deref(), Some("refused"), "the failure should be reported");

    // The user turn and an error assistant turn are both in the transcript.
    assert_eq!(a.session.messages.len(), 2);
    match &a.session.messages[1] {
        Message::Assistant { content, stop_reason, error, .. } => {
            assert_eq!(*stop_reason, StopReason::Error);
            assert_eq!(error.as_deref(), Some("refused"));
            assert_eq!(content[0], ContentBlock::text("(error: refused)".into()));
        }
        other => panic!("expected an error assistant message, got {other:?}"),
    }
    assert!(matches!(out.events.last(), Some(AgentEvent::TurnEnd { .. })));

    // And they are there once the transcript is opened again.
    let body: String =
        a.session.messages.iter().map(|m| Entry::Message(m.clone()).to_record()).collect();
    assert_eq!(Session::open("t1", Some(&body)).unwrap().messages, a.session.messages);
}

#[test]
fn a_cancelled_turn_stops_before_running_the_tool() {
    let call = || {
        Script::Frames(vec![
            r#"{"choices":[{"delta":{"tool_calls":[{"index":0,"id":"c1","function":{"name":"exec","arguments":"{\"command\":\"echo should-not-run\"}"}}]}}]}"#,
            r#"{"choices":[{"delta":{},"finish_reason":"tool_calls"}]}"#,
            "[DONE]",
        ])
    };
    // Cancelled up front, and cancelled while the model was answering.
    for after in [0, 1] {
        let mut a = agent();
        let out = run_turn(&mut a, "go", vec![call()], Some(after), vec![], no_tool);
        let ran_tool = a.session.messages.iter().any(
            |m| matches!(m, Message::ToolResult { content, .. } if content.contains("should-not-run")),
        );
        assert!(!ran_tool, "a cancelled turn must not execute tools");
        assert!(out.events.contains(&AgentEvent::Error("cancelled".into())));
        assert!(matches!(out.events.last(), Some(AgentEvent::TurnEnd { .. })));
    }
}

#[test]
fn a_tool_that_was_cancelled_still_gets_its_result() {
    let mut run = ToolRun::new(&vec![ContentBlock::ToolCall {
        id: "c".into(),
        name: "exec".into(),
        input: json("{}"),
    }]);
    match run.next(true) {
        ToolStep::Skip(Message::ToolResult { tool_call_id, content, is_error, .. }) => {
            assert_eq!(tool_call_id, "c");
            assert_eq!(content, "cancelled before execution");
            assert!(is_error);
        }
        _ => panic!("expected a skipped call"),
    }
    assert!(matches!(run.next(true), ToolStep::Done));
}

#[test]
fn every_call_of_an_answer_gets_its_result_in_order() {
    let call = Script::Frames(vec![
        r#"{"choices":[{"delta":{"tool_calls":[{"index":0,"id":"a","function":{"name":"ls"}},{"index":1,"id":"b","function":{"name":"ls"}}]}}]}"#,
    ]);
    let reply = answer(r#"{"choices":[{"delta":{"content":"ok"}}]}"#);
    fn ls(_: &str, _: &Json) -> ToolOutput {
        ToolOutput::ok("x".into())
    }
    let mut a = agent();
    run_turn(&mut a, "twice", vec![call, reply], None, vec![], ls);
    let ids: Vec<&str> = a
        .session
        .messages
        .iter()
        .filter_map(|m| match m {
            Message::ToolResult { tool_call_id, .. } => Some(tool_call_id.as_str()),
            _ => None,
        })
        .collect();
    assert_eq!(ids, ["a", "b"]);
}

#[test]
fn model_calls_are_bounded() {
    let call = || {
        Script::Frames(vec![
            r#"{"choices":[{"delta":{"tool_calls":[{"id":"c","function":{"name":"ls","arguments":"{}"}}]}}]}"#,
        ])
    };
    fn ls(_: &str, _: &Json) -> ToolOutput {
        ToolOutput::ok("x".into())
    }
    let mut a = agent();
    a.cfg.agent.max_iterations = 2;
    let out = run_turn(&mut a, "loop", vec![call(), call()], None, vec![], ls);
    assert_eq!(out.model_calls, 2);
    assert_eq!(out.reply.as_deref(), Some("stopped after 2 model calls in one turn"));
}

#[test]
fn what_was_typed_meanwhile_joins_before_the_next_call() {
    let mut a = agent();
    let reply = answer(r#"{"choices":[{"delta":{"content":"ok"}}]}"#);
    run_turn(&mut a, "one", vec![reply], None, vec!["two", "three"], no_tool);
    assert_eq!(a.session.messages[1], Message::user("two".into()));
    assert_eq!(a.session.messages[2], Message::user("three".into()));
    assert_eq!(a.session.messages.len(), 4);
}

#[test]
fn a_write_that_fails_ends_the_turn() {
    let mut turn = Turn::new("x".into(), 5, Usage::default());
    turn.step(Report::Begin);
    let step = turn.step(Report::Written(false));
    assert!(matches!(step.action, Action::Finish(None)));
    assert!(matches!(step.shown.last(), Some(AgentEvent::TurnEnd { .. })));
    // Once it is over it stays over, and its end is told once.
    let again = turn.step(Report::Begin);
    assert!(matches!(again.action, Action::Finish(None)));
    assert!(again.shown.is_empty());
}

#[test]
fn a_turn_shows_its_end_once_and_nothing_behind_it() {
    let usage = Usage { input: 3, output: 4, ..Default::default() };
    let mut turn = Turn::new("hola".into(), 5, usage);
    let mut shown = Vec::new();
    let reports = vec![
        Report::Begin,
        Report::Written(true),
        Report::Cancelled(true),
        // The turn is over; whatever comes in now shows nothing.
        Report::Begin,
        Report::Written(false),
        Report::Failure("late".into()),
    ];
    for r in reports {
        shown.extend(turn.step(r).shown);
    }
    assert_eq!(
        shown,
        vec![
            AgentEvent::TurnStart,
            AgentEvent::Error("cancelled".into()),
            AgentEvent::TurnEnd { usage },
        ]
    );
}

#[test]
fn an_answer_is_assembled_from_its_parts() {
    let mut a = Assembly::new();
    let u = |input, output| StreamEvent::Usage(Usage { input, output, ..Default::default() });
    for ev in [
        StreamEvent::ToolCallDelta("lost".into()),
        StreamEvent::ThinkingDelta("hm".into()),
        StreamEvent::TextDelta("a".into()),
        u(9, 1),
        StreamEvent::TextDelta("b".into()),
        StreamEvent::ToolCallStart { id: "1".into(), name: "ls".into() },
        StreamEvent::ToolCallDelta(" {\"path\":".into()),
        StreamEvent::ToolCallDelta("\"x\"} ".into()),
        StreamEvent::ToolCallEnd,
        StreamEvent::ToolCallStart { id: "2".into(), name: "ls".into() },
        StreamEvent::ToolCallDelta("{broken".into()),
        u(3, 5),
        StreamEvent::Done(StopReason::Stop),
    ] {
        a.feed(&ev);
    }
    assert_eq!(
        a.finish(false),
        Message::Assistant {
            content: vec![
                ContentBlock::Thinking { text: "hm".into(), signature: None },
                ContentBlock::text("ab".into()),
                ContentBlock::ToolCall {
                    id: "1".into(),
                    name: "ls".into(),
                    input: json(r#"{"path":"x"}"#),
                },
                // Arguments that are no JSON become an empty object.
                ContentBlock::ToolCall { id: "2".into(), name: "ls".into(), input: json("{}") },
            ],
            usage: Usage { input: 9, output: 5, ..Default::default() },
            stop_reason: StopReason::ToolUse,
            error: None,
        }
    );
    let mut aborted = Assembly::new();
    aborted.feed(&StreamEvent::TextDelta("half".into()));
    match aborted.finish(true) {
        Message::Assistant { stop_reason, .. } => assert_eq!(stop_reason, StopReason::Aborted),
        _ => panic!("expected an assistant message"),
    }
}

#[test]
fn a_request_carries_the_conversation_and_the_tools() {
    let mut a = agent();
    a.session.append(Message::user("hola".into()));
    let req = a.request();
    assert_eq!(req.system, "be brief");
    assert_eq!(req.messages.len(), 1);
    assert_eq!(req.tools.len(), 8);
    assert_eq!(req.max_tokens, 4096);
    assert!(req.stream_usage);
    assert_eq!(a.model_name(), "stub");
    assert_eq!(a.home(), "/home");
    assert_eq!(a.server_config().port, 8080);
    assert_eq!(a.telegram_config().poll_timeout_secs, 50);
}

#[test]
fn compaction_is_due_only_where_something_can_be_dropped() {
    let mut a = agent();
    assert_eq!(a.compaction(), None);
    a.last_usage = Usage { input: 30_000, ..Default::default() };
    assert_eq!(a.compaction(), None, "one turn has nothing to drop");
    a.session.append(Message::user("x".repeat(90_000)));
    a.session.append(Message::user("y".repeat(90_000)));
    assert_eq!(a.compaction(), Some((1, 30_000)));
    a.switch_session(Session::open("t2", None).unwrap());
    assert_eq!(a.last_usage, Usage::default());
    assert_eq!(compaction_failed("e"), AgentEvent::Error("compaction failed: e".into()));
}

#[test]
fn a_tool_result_is_previewed() {
    let (shown, m) = tool_finished("c", "ls", false, "z".repeat(300), Some("/p".into()));
    assert_eq!(
        shown,
        AgentEvent::ToolEnd { name: "ls".into(), is_error: false, preview: "z".repeat(200) }
    );
    assert_eq!(
        m,
        Message::ToolResult {
            tool_call_id: "c".into(),
            tool_name: "ls".into(),
            content: "z".repeat(300),
            is_error: false,
            blob: Some("/p".into()),
        }
    );
}
