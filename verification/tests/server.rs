use rustclaw::agent::AgentEvent;
use rustclaw::json::{parse, Json};
use rustclaw::server::assets;
use rustclaw::server::auth::{
    check_bind, constant_time_eq, cookie_value, is_loopback, percent_decode, query_value, token_of,
    Auth, Gate, COOKIE,
};
use rustclaw::server::dto::{
    export_filename, to_markdown, transcript, MAX_TOOL_PREVIEW,
};
use rustclaw::server::prose::neutralize_prose_html;
use rustclaw::server::{
    abort, busy, chat, check_message, check_rename, check_session, check_title, current_state, deleted, encode, export_session,
    failed, list_sessions, no_such_session, not_deleted, read_session, regenerate, renamed,
    selected, steer, Answer,
};
use rustclaw::session::{Session, SessionMeta};
use rustclaw::types::{ContentBlock, Message, StopReason, Usage};

fn json(s: &str) -> Json {
    parse(s).unwrap()
}

fn text(status: u16, s: &str) -> Answer {
    Answer::Text { status, text: s.into() }
}

fn assistant(blocks: Vec<ContentBlock>) -> Message {
    Message::Assistant {
        content: blocks,
        usage: Usage::default(),
        stop_reason: StopReason::Stop,
        error: None,
    }
}

fn result(name: &str, content: &str, is_error: bool) -> Message {
    Message::ToolResult {
        tool_call_id: "c".into(),
        tool_name: name.into(),
        content: content.into(),
        is_error,
        blob: None,
    }
}

// --- access control

#[test]
fn loopback_is_recognised_in_every_spelling() {
    // The second argument is what the address parser says of the first.
    for (a, ip) in [
        ("127.0.0.1", Some(true)),
        ("localhost", None),
        ("::1", Some(true)),
        ("127.0.0.5", Some(true)),
    ] {
        assert!(is_loopback(a, ip), "{a} should be loopback");
    }
    for a in ["0.0.0.0", "100.119.106.115", "192.168.1.10", "::"] {
        assert!(!is_loopback(a, Some(false)), "{a} should NOT be loopback");
    }
    assert!(is_loopback("LocalHost", None));
    assert!(!is_loopback("example.org", None));
}

#[test]
fn a_configured_token_must_match_exactly() {
    let auth = Auth::new(Some("secret".into()));
    assert!(auth.accepts(Some("secret")));
    assert!(!auth.accepts(Some("secre")));
    assert!(!auth.accepts(Some("secrett")));
    assert!(!auth.accepts(Some("Secret")));
    assert!(!auth.accepts(None), "a missing token must not pass");
}

#[test]
fn no_token_configured_lets_everything_through() {
    let auth = Auth::new(None);
    assert!(!auth.required());
    assert!(auth.accepts(None));
}

#[test]
fn reads_the_token_out_of_a_cookie_header() {
    assert_eq!(cookie_value("a=1; rustclaw_token=abc; b=2", COOKIE), Some("abc".into()));
    assert_eq!(cookie_value("other=1", COOKIE), None);
}

#[test]
fn reads_and_decodes_the_token_query_parameter() {
    assert_eq!(query_value("token=abc&x=1", "token"), Some("abc".into()));
    assert_eq!(query_value("x=1&token=a%2Bb", "token"), Some("a+b".into()));
    assert_eq!(query_value("x=1", "token"), None);
}

#[test]
fn generated_tokens_are_long_and_distinct() {
    let a = token_of(&[7u8; 24]);
    let mut other = [7u8; 24];
    other[23] = 8;
    let b = token_of(&other);
    assert_eq!(a.len(), 48, "24 bytes hex-encoded");
    assert_ne!(a, b, "two generated tokens must not collide");
    assert!(a.chars().all(|c| c.is_ascii_hexdigit()));
}

#[test]
fn comparison_rejects_length_mismatch_without_indexing_past_the_end() {
    assert!(!constant_time_eq(b"abc", b"ab"));
    assert!(!constant_time_eq(b"", b"a"));
    assert!(constant_time_eq(b"abc", b"abc"));
}

#[test]
fn percent_escapes_are_decoded_and_broken_ones_kept() {
    assert_eq!(percent_decode("a+b%20c"), "a b c");
    assert_eq!(percent_decode("%C3%A1"), "á");
    assert_eq!(percent_decode("%ff"), "\u{fffd}");
    assert_eq!(percent_decode("100%"), "100%");
    assert_eq!(percent_decode("%zz"), "%zz");
    assert_eq!(percent_decode("%+1"), "% 1");
    // An escape at the very end needs both of its digits.
    assert_eq!(percent_decode("x%41"), "xA");
}

#[test]
fn a_request_needs_the_token_in_one_of_three_places() {
    let auth = Auth::new(Some("s".into()));
    let deny = Gate::Deny { status: 401, text: "invalid or missing token" };
    assert_eq!(auth.guard(None, None, None), deny);
    assert_eq!(auth.guard(Some("Bearer s"), None, None), Gate::Pass { set_cookie: None });
    assert_eq!(auth.guard(Some("bearer s"), None, None), deny);
    assert_eq!(auth.guard(None, None, Some("rustclaw_token=s")), Gate::Pass { set_cookie: None });
    let cookie = "rustclaw_token=s; Path=/; Max-Age=31536000; SameSite=Lax; HttpOnly";
    assert_eq!(
        auth.guard(None, Some("token=s"), None),
        Gate::Pass { set_cookie: Some(cookie.into()) }
    );
    // The header comes before the query, the query before the cookie.
    assert_eq!(auth.guard(Some("Bearer x"), Some("token=s"), None), deny);
    assert_eq!(auth.guard(None, Some("token=x"), Some("rustclaw_token=s")), deny);
    assert_eq!(Auth::new(None).guard(None, None, None), Gate::Pass { set_cookie: None });
}

#[test]
fn an_open_address_is_refused_without_a_token() {
    let e = check_bind("0.0.0.0", Some(false), None).unwrap_err();
    assert!(e.starts_with("refusing to serve on 0.0.0.0: "));
    assert!(e.contains("Generate one with:  rustclaw token"));
    assert!(check_bind("0.0.0.0", Some(false), Some("".into())).is_err());
    assert!(check_bind("0.0.0.0", Some(false), Some("t".into())).unwrap().required());
    assert!(!check_bind("127.0.0.1", Some(true), None).unwrap().required());
}

#[test]
fn a_cookie_stands_for_the_token_it_was_set_from() {
    let auth = Auth::new(Some("a+b".into()));
    let set = match auth.guard(None, Some("token=a%2Bb"), None) {
        Gate::Pass { set_cookie: Some(c) } => c,
        other => panic!("{other:?}"),
    };
    let sent = set.split(';').next().unwrap();
    assert_eq!(auth.guard(None, None, Some(sent)), Gate::Pass { set_cookie: None });
}

// --- what the browser sees

#[test]
fn a_user_turn_carries_its_text() {
    let out = transcript(&[Message::user("hola".into())]);
    assert_eq!(out.len(), 1);
    assert_eq!(out[0].role, "user");
    assert_eq!(out[0].text, "hola");
}

#[test]
fn tool_calls_are_flattened_beside_the_text() {
    let out = transcript(&[assistant(vec![
        ContentBlock::text("voy a mirar".into()),
        ContentBlock::ToolCall {
            id: "c1".into(),
            name: "grep".into(),
            input: json(r#"{"pattern": "TODO"}"#),
        },
    ])]);
    assert_eq!(out[0].text, "voy a mirar");
    assert_eq!(out[0].tool_calls.len(), 1);
    assert_eq!(out[0].tool_calls[0].name, "grep");
    assert!(out[0].tool_calls[0].input.contains("TODO"));
}

#[test]
fn thinking_blocks_never_reach_the_browser() {
    let out = transcript(&[assistant(vec![
        ContentBlock::Thinking { text: "interno".into(), signature: None },
        ContentBlock::text("respuesta".into()),
    ])]);
    assert_eq!(out[0].text, "respuesta");
    assert!(!out[0].to_json().to_text().contains("interno"));
}

#[test]
fn empty_assistant_turns_do_not_become_empty_bubbles() {
    assert!(transcript(&[assistant(vec![ContentBlock::text("".into())])]).is_empty());
}

#[test]
fn tool_results_are_previewed_not_sent_whole() {
    let out = transcript(&[Message::ToolResult {
        tool_call_id: "c1".into(),
        tool_name: "exec".into(),
        content: "x".repeat(100_000),
        is_error: false,
        blob: Some("/tmp/spill.txt".into()),
    }]);
    let tool = out[0].tool.as_ref().unwrap();
    assert_eq!(tool.name, "exec");
    assert!(tool.preview.chars().count() <= MAX_TOOL_PREVIEW);
    // The on-disk path is an internal detail, not something to leak.
    assert!(!out[0].to_json().to_text().contains("/tmp/spill.txt"));
}

#[test]
fn messages_are_sent_without_their_empty_parts() {
    let out = transcript(&[
        Message::user("hola".into()),
        result("read", "x", true),
        Message::Assistant {
            content: vec![],
            usage: Usage::default(),
            stop_reason: StopReason::Error,
            error: Some("e".into()),
        },
    ]);
    let sent: Vec<String> = out.iter().map(|m| m.to_json().to_text()).collect();
    assert_eq!(sent[0], r#"{"role":"user","text":"hola"}"#);
    assert_eq!(
        sent[1],
        r#"{"isError":true,"role":"tool","tool":{"isError":true,"name":"read","preview":"x"}}"#
    );
    assert_eq!(sent[2], r#"{"isError":true,"role":"assistant"}"#);
}

#[test]
fn markdown_export_keeps_code_fences_verbatim() {
    // The whole point of exporting is to get the model's Markdown back;
    // touching code would destroy the fences.
    let md = to_markdown("Notas", &[
        Message::user("hazme un ejemplo".into()),
        assistant(vec![ContentBlock::text(
            "Aquí va:\n\n```rust\nfn main() { let x: Vec<u8> = vec![]; }\n```".into(),
        )]),
    ]);
    assert!(md.contains("## You\n\nhazme un ejemplo"));
    // Generic type args inside the fence — `<u8>` — must survive untouched.
    assert!(md.contains("Vec<u8>"), "code was escaped:\n{md}");
    assert!(md.contains("```rust\n"), "fence mangled:\n{md}");
}

#[test]
fn export_neutralizes_raw_html_in_a_title() {
    // Opened in a Markdown viewer that renders HTML, an un-escaped title
    // would run this.
    let md = to_markdown("Notes <img src=x onerror=alert(9)> <script>alert(8)</script>", &[]);
    assert!(!md.contains("<script"), "raw script tag in export:\n{md}");
    assert!(!md.contains("<img"), "raw img tag in export:\n{md}");
    assert!(md.contains("&lt;script&gt;"), "expected escaped text:\n{md}");
}

#[test]
fn export_neutralizes_raw_html_in_assistant_prose_but_not_in_code() {
    let md = to_markdown("t", &[assistant(vec![ContentBlock::text(
        "Mira esto <script>alert(1)</script> y en linea `<b>x</b>` y en bloque:\n\n```html\n<script>ok</script>\n```".into(),
    )])]);
    // Prose tag: neutralized.
    assert!(!md.contains("<script>alert(1)"), "prose HTML ran:\n{md}");
    assert!(md.contains("&lt;script&gt;alert(1)"), "{md}");
    // Inline code span: preserved.
    assert!(md.contains("`<b>x</b>`"), "inline code escaped:\n{md}");
    // Fenced code: preserved verbatim, including its <script>.
    assert!(md.contains("```html\n<script>ok</script>\n```"), "fenced code escaped:\n{md}");
}

#[test]
fn only_code_that_is_closed_is_left_as_it_is() {
    for (text, shown) in [
        // A backtick that nothing closes opens nothing.
        ("a ` <b>", "a ` &lt;b&gt;"),
        ("` <i> `` <b> `", "` <i> `` <b> `"),
        ("`` <i> ` <b>", "`` &lt;i&gt; ` &lt;b&gt;"),
        // A span does not cross a blank line, nor the start of a block.
        ("`\n\n<b>`", "`\n\n&lt;b&gt;`"),
        ("`\n \t\n<b>`", "`\n \t\n&lt;b&gt;`"),
        ("`a\n```\n<b>`\n```\n<i>", "`a\n```\n<b>`\n```\n&lt;i&gt;"),
        ("`a\n<b>`", "`a\n<b>`"),
        // As many backticks close a span as opened it.
        ("``<b>`` <i>", "``<b>`` &lt;i&gt;"),
        ("``<b> ` c`` <i>", "``<b> ` c`` &lt;i&gt;"),
        ("x ```<b>``` <i>", "x ```<b>``` &lt;i&gt;"),
        ("```<b>``` <i>", "```<b>``` &lt;i&gt;"),
        // A block is closed by as many backticks or more, alone on their line.
        ("````\n```\n<b>\n````\n<i>", "````\n```\n<b>\n````\n&lt;i&gt;"),
        ("```\n```rust\n<b>\n```\n<i>", "```\n```rust\n<b>\n```\n&lt;i&gt;"),
        ("```\n<b>\n\n<b>", "```\n<b>\n\n<b>"),
        // A backtick behind a backslash is a character like any other.
        ("\\`<b>`", "\\`&lt;b&gt;`"),
        ("\\\\`<b>`", "\\\\`<b>`"),
        // A block may be indented by three blanks, or by what its list item is.
        ("  ```\n<b>\n\n<b>\n  ```\n<i>", "  ```\n<b>\n\n<b>\n  ```\n&lt;i&gt;"),
        ("    ```\n\n<i>", "    ```\n\n&lt;i&gt;"),
        (
            "1. uno:\n\n   ```bash\n   echo <b>\n\n   cat <b>\n   ```\n\n<i>",
            "1. uno:\n\n   ```bash\n   echo <b>\n\n   cat <b>\n   ```\n\n&lt;i&gt;",
        ),
        (
            "- a\n  - b\n\n    ```\n    <b>\n\n    <b>\n    ```\n    <i>",
            "- a\n  - b\n\n    ```\n    <b>\n\n    <b>\n    ```\n    &lt;i&gt;",
        ),
        ("-\ta\n\n\t```\n\t<b>\n\n\t```\n<i>", "-\ta\n\n\t```\n\t<b>\n\n\t```\n&lt;i&gt;"),
        ("12) ```\n    <b>\n\n    ```\n<i>", "12) ```\n    <b>\n\n    ```\n&lt;i&gt;"),
        // A block ends with its list item, and is not closed by deeper backticks.
        ("- ```\n  <b>\n<i>", "- ```\n  <b>\n&lt;i&gt;"),
        ("```\n- a\n     ```\n<b>\n```\n<i>", "```\n- a\n     ```\n<b>\n```\n&lt;i&gt;"),
        // A span does not go on in the next list item.
        ("- a ` <i>\n- b ` c", "- a ` &lt;i&gt;\n- b ` c"),
        ("a < b && c > d", "a &lt; b &amp;&amp; c &gt; d"),
        ("", ""),
    ] {
        assert_eq!(neutralize_prose_html(text), shown, "{text:?}");
    }
}

#[test]
fn a_run_of_backticks_in_tool_output_opens_no_block() {
    let md = to_markdown("t", &[result("read", "`````\n<b>\n`````", false)]);
    let fences = md.lines().filter(|l| l.starts_with("```")).count();
    assert_eq!(fences, 2, "{md}");
    for n in [1, 2, 3, 4, 6, 7, 9] {
        let md = to_markdown("t", &[result("read", &"`".repeat(n), false)]);
        assert_eq!(md.matches("```").count(), 2, "{n}: {md}");
    }
}

#[test]
fn export_neutralizes_a_hostile_tool_name() {
    let md = to_markdown("t", &[result("exec<script>alert(1)</script>", "ok", false)]);
    assert!(!md.contains("<script>alert"), "tool name ran:\n{md}");
}

#[test]
fn tool_output_cannot_break_out_of_its_fence() {
    let md = to_markdown("t", &[result("read", "antes\n```\ndentro\n```\ndespues", false)]);
    // Exactly the opening and closing fence this block owns.
    assert_eq!(md.matches("```").count(), 2, "a fence in the output escaped:\n{md}");
    assert!(md.contains("dentro"));
}

#[test]
fn tool_calls_are_recorded_in_the_export() {
    let md = to_markdown("t", &[assistant(vec![ContentBlock::ToolCall {
        id: "c".into(),
        name: "grep".into(),
        input: json(r#"{"pattern": "TODO"}"#),
    }])]);
    assert!(md.contains("ran `grep`"), "{md}");
    assert!(md.contains("TODO"));
}

#[test]
fn a_whole_conversation_is_exported() {
    let md = to_markdown("A & B", &[
        Message::user(" hola \n".into()),
        assistant(vec![ContentBlock::text(" ".into())]),
        Message::Assistant {
            content: vec![
                ContentBlock::text("a < b".into()),
                ContentBlock::ToolCall {
                    id: "c".into(),
                    name: "ls".into(),
                    input: json(r#"{"path":"<x>"}"#),
                },
            ],
            usage: Usage::default(),
            stop_reason: StopReason::Error,
            error: Some("boom <b>".into()),
        },
        result("ls", "out \n", true),
    ]);
    assert_eq!(
        md,
        "# A &amp; B\n\n## You\n\nhola\n\n## Assistant\n\na &lt; b\n\n> ran `ls` path=&lt;x&gt;\n\
         > **error:** boom &lt;b&gt;\n\n<details><summary>error from ls</summary>\n\n```\nout\n```\n\n</details>\n\n"
    );
}

#[test]
fn filenames_are_safe_and_bounded() {
    assert_eq!(export_filename("Notas del proyecto"), "notas-del-proyecto.md");
    assert_eq!(export_filename("../../etc/passwd"), "etc-passwd.md");
    assert_eq!(export_filename("   "), "conversation.md");
    assert!(export_filename(&"x".repeat(500)).len() <= 63);
    // No separator may survive into the name.
    assert!(!export_filename("a/b\\c").contains(['/', '\\']));
}

#[test]
fn letters_of_every_script_stay_in_a_filename() {
    assert_eq!(export_filename("Árbol 日本 #1"), "árbol-日本--1.md");
}

#[test]
fn a_failed_tool_keeps_its_error_flag() {
    let out = transcript(&[result("read", "no such file", true)]);
    assert!(out[0].is_error);
    assert!(out[0].tool.as_ref().unwrap().is_error);
}

// --- events

#[test]
fn a_multiline_delta_stays_inside_one_sse_frame() {
    let (name, data) = encode(&AgentEvent::TextDelta("line one\nline two".into()));
    assert_eq!(name, "delta");
    assert!(!data.contains('\n'), "a raw newline would end the SSE frame early");
    assert_eq!(serde_json::from_str::<String>(&data).unwrap(), "line one\nline two");
}

#[test]
fn tool_events_carry_their_error_flag() {
    let (name, data) = encode(&AgentEvent::ToolEnd {
        name: "exec".into(),
        is_error: true,
        preview: "boom".into(),
    });
    assert_eq!(name, "tool_end");
    let v: serde_json::Value = serde_json::from_str(&data).unwrap();
    assert_eq!(v["isError"], true);
}

#[test]
fn turn_end_reports_usage() {
    let (_, data) = encode(&AgentEvent::TurnEnd {
        usage: Usage { input: 7, output: 3, cache_read: 1, cache_write: 0 },
    });
    let v: serde_json::Value = serde_json::from_str(&data).unwrap();
    assert_eq!(v["input"], 7);
    assert_eq!(v["cacheRead"], 1);
}

#[test]
fn every_event_has_its_name() {
    let cases = [
        (AgentEvent::TurnStart, "turn_start", "{}"),
        (AgentEvent::ThinkingDelta("t".into()), "thinking", "\"t\""),
        (
            AgentEvent::ToolStart { name: "ls".into(), input: "p=1".into() },
            "tool_start",
            r#"{"input":"p=1","name":"ls"}"#,
        ),
        (AgentEvent::Reply("r".into()), "reply", "\"r\""),
        (AgentEvent::Compacted { dropped: 4 }, "compacted", r#"{"dropped":4}"#),
        (AgentEvent::Error("e".into()), "error", "\"e\""),
    ];
    for (ev, name, data) in cases {
        assert_eq!(encode(&ev), (name, data.to_string()));
    }
}

// --- answers

#[test]
fn blank_input_is_refused() {
    assert_eq!(check_message(" \n"), Some(text(400, "message must not be empty")));
    assert_eq!(check_message("x"), None);
    assert_eq!(check_title(""), Some(text(400, "title must not be empty")));
    assert_eq!(check_title("x"), None);
}

#[test]
fn turns_are_answered() {
    assert_eq!(busy(), text(409, "a turn is already running"));
    assert_eq!(failed("e"), text(500, "e"));
    assert_eq!(chat(Ok("r".into())), Answer::Value(json(r#"{"reply":"r"}"#)));
    assert_eq!(chat(Err("e".into())), text(500, "e"));
    assert_eq!(regenerate(Ok(Some("r".into()))), Answer::Value(json(r#"{"reply":"r"}"#)));
    assert_eq!(regenerate(Ok(None)), text(400, "nothing to regenerate"));
    assert_eq!(regenerate(Err("e".into())), text(500, "e"));
    assert_eq!(abort(true), text(200, "cancelled"));
    assert_eq!(abort(false), text(200, "nothing running"));
    assert_eq!(steer(true), text(202, "queued"));
    assert_eq!(steer(false), text(410, "agent is gone"));
}

#[test]
fn conversations_are_answered() {
    assert_eq!(no_such_session(), text(404, "no such session"));
    assert_eq!(not_deleted("no session s1"), text(404, "no session s1"));
    assert_eq!(selected("s1"), Answer::Value(json(r#"{"id":"s1"}"#)));
    assert_eq!(renamed("s1", "t"), Answer::Value(json(r#"{"id":"s1","title":"t"}"#)));
    assert_eq!(deleted("s1", "s2"), Answer::Value(json(r#"{"deleted":"s1","active":"s2"}"#)));
    assert_eq!(
        current_state("s1", "m", "0.1"),
        Answer::Value(json(r#"{"sessionId":"s1","model":"m","version":"0.1"}"#))
    );
    let m = SessionMeta { id: "s1".into(), title: "t".into(), updated_at: 5, messages: 2 };
    assert_eq!(
        list_sessions("s1", &vec![m]),
        Answer::Value(json(
            r#"{"active":"s1","sessions":[{"id":"s1","title":"t","updated_at":5,"messages":2}]}"#
        ))
    );
    let mut s = Session::open("s1", None).unwrap();
    s.append(Message::user("hola".into()));
    assert_eq!(
        read_session(&s),
        Answer::Value(json(
            r#"{"id":"s1","title":"hola","messages":[{"role":"user","text":"hola"}]}"#
        ))
    );
    let e = export_session(&s);
    assert_eq!(e.disposition, "attachment; filename=\"hola.md\"");
    assert_eq!(e.body, "# hola\n\n## You\n\nhola\n\n");
}

#[test]
fn a_session_that_is_not_there_is_not_found() {
    assert_eq!(check_session("s1", true), None);
    assert_eq!(check_session("s1", false), Some(text(404, "no such session")));
    assert_eq!(check_session("../x", true), Some(text(404, "no such session")));
    assert_eq!(check_rename("t", "s1", true), None);
    assert_eq!(check_rename(" ", "../x", false), Some(text(400, "title must not be empty")));
    assert_eq!(check_rename("t", "s1", false), Some(text(404, "no such session")));
}

// --- assets

#[test]
fn assets_are_served_with_their_type() {
    assert_eq!(assets::content_type("app.js"), Some(assets::JAVASCRIPT));
    assert_eq!(assets::content_type("vendor/hl/theme-dark.css"), Some(assets::CSS));
    assert_eq!(assets::content_type("vendor/hl/diff.mjs"), Some(assets::JAVASCRIPT));
    assert_eq!(assets::content_type("../secret"), None);
    assert_eq!(assets::content_type("index.html"), None);
}
