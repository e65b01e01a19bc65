use rustclaw::json::{Json, JsonObject};
use rustclaw::session::{
    dir, forget, index_text, is_spilled_for, is_valid_id, mend_end, needs_spill, read_index,
    scan_meta, sort_newest_first, transcript_id,
    transcript_path, transcript_text, truncate_title,
    Entry, IdMint, Session, SessionError, SessionMeta, MAX_TITLE_CHARS,
};
use rustclaw::types::{ContentBlock, Message, StopReason, Usage};

fn user(s: &str) -> Message {
    Message::user(s.to_string())
}

fn assistant(text: &str) -> Message {
    Message::Assistant {
        content: vec![ContentBlock::text(text.to_string())],
        usage: Usage::default(),
        stop_reason: StopReason::Stop,
        error: None,
    }
}

/// A transcript file, held in memory.
struct Disk {
    body: Option<String>,
}

impl Disk {
    fn new() -> Disk {
        Disk { body: None }
    }

    fn open(&self, id: &str) -> Session {
        Session::open(id, self.body.as_deref()).unwrap()
    }

    fn write(&mut self, e: &Entry) {
        self.body.get_or_insert_with(String::new).push_str(&e.to_record());
    }

    fn append(&mut self, s: &mut Session, m: Message) {
        self.write(&Entry::Message(m.clone()));
        s.append(m);
    }

    fn set_title(&mut self, s: &mut Session, text: &str) {
        self.write(&Session::title_entry(text));
        s.set_title(text);
    }

    fn rewrite(&mut self, s: &mut Session, messages: Vec<Message>) {
        self.body = Some(transcript_text(&s.rewritten(&messages)));
        s.rewrite(messages);
    }
}

fn meta(id: &str, updated_at: u64) -> SessionMeta {
    SessionMeta { id: id.into(), title: "t".into(), updated_at, messages: 1 }
}

#[test]
fn a_transcript_survives_reopening() {
    let mut d = Disk::new();
    let mut s = d.open("s1");
    d.append(&mut s, user("hola"));
    d.append(&mut s, assistant("qué tal"));

    let s = d.open("s1");
    assert_eq!(s.messages.len(), 2);
    assert_eq!(s.messages[0], user("hola"));
    assert_eq!(s.messages[1], assistant("qué tal"));
}

#[test]
fn a_truncated_final_line_does_not_lose_the_rest_of_the_history() {
    let mut d = Disk::new();
    let mut s = d.open("s1");
    d.append(&mut s, user("one"));
    d.append(&mut s, user("two"));
    // A crash partway through an append.
    d.body.as_mut().unwrap().push_str("{\"type\":\"Message\",\"role\":\"user\",\"cont");

    let s = d.open("s1");
    assert_eq!(s.messages.len(), 2, "the two intact messages must survive");
}

#[test]
fn large_tool_output_is_spilled_and_referenced() {
    let s = Disk::new().open("s1");
    let big = "x".repeat(10_000);
    assert!(needs_spill(&big, 500));
    let (preview, blob) = s.spill_tool_output("/r/sessions", "call_1", &big, 500, true);
    assert!(preview.len() < big.len(), "preview must be smaller than the body");
    assert!(preview.contains("full output:"));
    assert_eq!(blob, Some("/r/sessions/tool-results/s1-call_1.txt".to_string()));
    assert!(preview.ends_with("\n\n[full output: /r/sessions/tool-results/s1-call_1.txt]"));
}

#[test]
fn output_that_cannot_be_spilled_is_cut() {
    let s = Disk::new().open("s1");
    let big = "x".repeat(10_000);
    let (preview, blob) = s.spill_tool_output("/r/sessions", "call_1", &big, 500, false);
    assert_eq!(blob, None);
    assert_eq!(
        preview,
        format!("{}\n\n... [9500 bytes omitted] ...\n\n{}", "x".repeat(250), "x".repeat(250))
    );
}

#[test]
fn small_tool_output_stays_inline() {
    let s = Disk::new().open("s1");
    assert!(!needs_spill("short", 500));
    let (preview, blob) = s.spill_tool_output("/r/sessions", "call_1", "short", 500, false);
    assert_eq!(preview, "short");
    assert!(blob.is_none());
}

#[test]
fn rewrite_replaces_history_atomically_and_appends_still_work() {
    let mut d = Disk::new();
    let mut s = d.open("s1");
    d.append(&mut s, user("a"));
    d.append(&mut s, user("b"));
    d.rewrite(&mut s, vec![user("summary")]);
    d.append(&mut s, user("c"));

    let reopened = d.open("s1");
    assert_eq!(reopened.messages.len(), 2);
    assert_eq!(reopened.messages[0], user("summary"));
    assert_eq!(reopened.messages[1], user("c"));
}

#[test]
fn lists_sessions_with_titles_derived_from_the_first_user_message() {
    let mut a = Disk::new();
    let mut s = a.open("s1");
    a.append(&mut s, user("como configuro el bridge de telegram"));
    let mut b = Disk::new();
    let mut s = b.open("s2");
    b.append(&mut s, user("otra cosa"));

    let ids = vec!["s1".to_string(), "s2".to_string()];
    assert!(Session::list(&ids, None).is_none(), "without a cache the transcripts are read");
    let metas = sort_newest_first(vec![
        scan_meta("s1", a.body.as_deref().unwrap(), 1),
        scan_meta("s2", b.body.as_deref().unwrap(), 2),
    ]);
    assert_eq!(metas.len(), 2);
    let first = metas.iter().find(|m| m.id == "s1").unwrap();
    assert_eq!(first.title, "como configuro el bridge de telegram");
    assert_eq!(first.messages, 1);
}

#[test]
fn an_explicit_title_wins_over_the_derived_one_and_survives_reopening() {
    let mut d = Disk::new();
    let mut s = d.open("s1");
    d.append(&mut s, user("primer mensaje"));
    assert_eq!(s.display_title(), "primer mensaje");
    d.set_title(&mut s, "Notas del proyecto");

    let s = d.open("s1");
    assert_eq!(s.display_title(), "Notas del proyecto");
}

#[test]
fn the_last_title_wins_because_renames_are_appended() {
    let mut d = Disk::new();
    let mut s = d.open("s1");
    d.append(&mut s, user("hola"));
    d.set_title(&mut s, "primero");
    d.set_title(&mut s, "segundo");
    assert_eq!(d.open("s1").display_title(), "segundo");
    // And the scan path, used when the cache is cold, must agree.
    assert_eq!(scan_meta("s1", d.body.as_deref().unwrap(), 0).title, "segundo");
}

#[test]
fn a_rewrite_does_not_lose_the_title() {
    let mut d = Disk::new();
    let mut s = d.open("s1");
    d.append(&mut s, user("a"));
    d.set_title(&mut s, "Conservar");
    d.rewrite(&mut s, vec![user("b")]);
    assert_eq!(d.open("s1").display_title(), "Conservar");
}

#[test]
fn the_listing_cache_is_rebuilt_when_it_disagrees_with_the_disk() {
    let one = vec!["s1".to_string()];
    let cached = index_text(&vec![meta("s1", 1)]);
    assert_eq!(Session::list(&one, read_index(&cached)), Some(vec![meta("s1", 1)]));

    // A session appearing without going through us must still be listed.
    let two = vec!["s1".to_string(), "s2".to_string()];
    assert_eq!(Session::list(&two, read_index(&cached)), None);
    assert_eq!(Session::list(&two, read_index("garbage not json")), None);
    let other = index_text(&vec![meta("s1", 1), meta("s3", 2)]);
    assert_eq!(Session::list(&two, read_index(&other)), None);
}

#[test]
fn deleting_removes_the_transcript_and_its_spilled_tool_output() {
    assert_eq!(Session::check_delete("s1", true), Ok(()));
    assert!(is_spilled_for("s1-call1.txt", "s1", &vec![]));
    assert!(!is_spilled_for("s12-call1.txt", "s1", &vec![]));
    assert!(forget(&vec![meta("s1", 1)], "s1").is_empty());
    let twice = Session::check_delete("s1", false);
    assert!(twice.is_err(), "deleting twice should report it");
    assert_eq!(twice.unwrap_err().message(), "no session s1");
}

#[test]
fn deleting_leaves_the_spilled_output_of_other_sessions() {
    let others = vec!["s1-x".to_string(), "s2".to_string()];
    assert!(!is_spilled_for("s1-x-c1.txt", "s1", &others));
    assert!(is_spilled_for("s1-c1.txt", "s1", &others));
    assert!(!is_spilled_for("s2-c1.txt", "s1", &others));
    assert!(is_spilled_for("s1-x-c1.txt", "s1-x", &vec!["s1".to_string()]));
    // Without a session of that name it is a call id with a dash.
    assert!(is_spilled_for("s1-x-c1.txt", "s1", &vec!["s2".to_string()]));
}

#[test]
fn both_sessions_are_listed_once_the_cache_went_stale() {
    let mut bodies = Vec::new();
    for (id, said) in [("s1", "uno"), ("s2", "dos")] {
        let mut d = Disk::new();
        let mut s = d.open(id);
        d.append(&mut s, user(said));
        bodies.push((id, d.body.unwrap()));
    }
    let ids: Vec<String> = bodies.iter().map(|(id, _)| id.to_string()).collect();
    let stale = index_text(&vec![scan_meta("s1", &bodies[0].1, 5)]);
    assert_eq!(Session::list(&ids, read_index(&stale)), None);

    let rows = bodies.iter().zip([5, 6]).map(|((id, body), at)| scan_meta(id, body, at)).collect();
    let listed = sort_newest_first(rows);
    let shown: Vec<(&str, &str)> = listed.iter().map(|m| (m.id.as_str(), m.title.as_str())).collect();
    assert_eq!(shown, vec![("s2", "dos"), ("s1", "uno")]);
    // What was scanned is a cache that is trusted the next time.
    assert_eq!(Session::list(&ids, read_index(&index_text(&listed))), Some(listed));
}

#[test]
fn a_cache_that_names_a_session_twice_is_not_trusted() {
    let two = vec!["s1".to_string(), "s2".to_string()];
    let twice = index_text(&vec![meta("s1", 1), meta("s1", 2)]);
    assert_eq!(Session::list(&two, read_index(&twice)), None);
    let both = index_text(&vec![meta("s1", 1), meta("s2", 2)]);
    assert_eq!(
        Session::list(&two, read_index(&both)),
        Some(vec![meta("s2", 2), meta("s1", 1)])
    );
}

#[test]
fn a_compacted_transcript_keeps_the_record_of_it() {
    let mut d = Disk::new();
    let mut s = d.open("s1");
    d.append(&mut s, user("a"));
    d.append(&mut s, assistant("b"));
    d.set_title(&mut s, "Conservar");
    let kept = vec![user("resumen"), user("c")];
    let entries = s.compacted("resumen", 2, 900, &kept);
    assert_eq!(
        entries,
        vec![
            Session::title_entry("Conservar"),
            Session::record_compaction("resumen", 2, 900),
            Entry::Message(user("resumen")),
            Entry::Message(user("c")),
        ]
    );
    d.body = Some(transcript_text(&entries));
    s.compact("resumen", 2, 900, kept);
    let again = d.open("s1");
    assert_eq!(again.messages, s.messages);
    assert_eq!(again.display_title(), "Conservar");
    assert_eq!(again.compaction, s.compaction);
    assert_eq!(again.compaction.as_ref().unwrap().tokens_before, 900);

    // Running the last turn again rewrites the transcript, and keeps the record.
    let (kept, _) = s.rewind_to_last_user().unwrap();
    d.rewrite(&mut s, kept);
    let again = d.open("s1");
    assert_eq!(again.messages, vec![user("resumen")]);
    assert_eq!(again.compaction.as_ref().map(|c| c.dropped), Some(2));

    let untitled = Disk::new().open("s2").compacted("r", 1, 2, &vec![user("x")]);
    assert_eq!(untitled.len(), 2);
    assert_eq!(untitled[0], Session::record_compaction("r", 1, 2));
}

#[test]
fn the_entry_behind_a_torn_line_is_not_lost() {
    let mut d = Disk::new();
    let mut s = d.open("s1");
    d.append(&mut s, user("uno"));
    let whole = d.body.clone().unwrap();
    assert_eq!(mend_end(&whole), "");
    assert_eq!(mend_end(""), "");

    for torn in ["{\"kind\":\"mess", "{\"kind\":\"mess\r"] {
        let body = format!("{whole}{torn}");
        d.body = Some(format!("{body}{}", mend_end(&body)));
        assert!(d.body.as_deref().unwrap().ends_with('\n'));
        let mut s = d.open("s1");
        assert_eq!(s.messages, vec![user("uno")]);
        d.append(&mut s, user("dos"));
        assert_eq!(d.open("s1").messages, vec![user("uno"), user("dos")]);
    }

    // A line that only lacks its end is an entry like any other.
    let cut = whole.trim_end().to_string();
    assert_eq!(mend_end(&cut), "\n");
    d.body = Some(format!("{cut}{}", mend_end(&cut)));
    assert_eq!(d.open("s1").messages, vec![user("uno")]);
}

#[test]
fn the_first_thing_said_becomes_the_title() {
    let mut d = Disk::new();
    let mut s = d.open("s1");
    assert_eq!(s.first_title("hola\n mundo"), Some(Session::title_entry("hola mundo")));
    d.append(&mut s, user("hola"));
    assert_eq!(s.first_title("otra"), None);
    let mut named = Disk::new().open("s2");
    named.set_title("Notas");
    assert_eq!(named.first_title("hola"), None);
}

#[test]
fn rewind_drops_the_assistant_turn_and_every_tool_result_after_it() {
    let mut d = Disk::new();
    let mut s = d.open("s1");
    d.append(&mut s, user("primero"));
    d.append(&mut s, assistant("respuesta vieja"));
    d.append(&mut s, user("segundo"));
    let call = ContentBlock::ToolCall {
        id: "c1".into(),
        name: "exec".into(),
        input: Json::Object(JsonObject::new()),
    };
    d.append(
        &mut s,
        Message::Assistant {
            content: vec![call],
            usage: Usage::default(),
            stop_reason: StopReason::ToolUse,
            error: None,
        },
    );
    d.append(
        &mut s,
        Message::ToolResult {
            tool_call_id: "c1".into(),
            tool_name: "exec".into(),
            content: "salida".into(),
            is_error: false,
            blob: None,
        },
    );

    let (kept, again) = s.rewind_to_last_user().unwrap();
    assert_eq!(again, "segundo");
    d.rewrite(&mut s, kept);
    // Everything from that user turn on is gone, so no tool_result refers
    // to a tool_use that is no longer present.
    assert_eq!(s.messages.len(), 2);
    assert!(!s.messages.iter().any(|m| matches!(m, Message::ToolResult { .. })));
    assert_eq!(d.open("s1").messages.len(), 2);
}

#[test]
fn rewinding_an_empty_session_reports_nothing_to_redo() {
    assert!(Disk::new().open("s1").rewind_to_last_user().is_none());
}

#[test]
fn traversal_ids_are_rejected_at_every_boundary() {
    let long = "x".repeat(200);
    for bad in ["../victima/notas", "..", "a/b", "a.jsonl", "", "a b", "../../etc/passwd", "a\\b", &long]
    {
        assert!(!is_valid_id(bad), "{bad:?} must be rejected");
    }
    for ok in ["s1788269019", "abc", "a-b_c", "S1"] {
        assert!(is_valid_id(ok), "{ok:?} must be accepted");
    }

    // And every entry point must refuse them.
    assert!(Session::open("../victima/notas", None).is_err());
    assert!(!Session::is_stored("../victima/notas", true));
    assert_eq!(Session::check_delete("../victima/notas", true), Err(SessionError::InvalidId));
    assert_eq!(SessionError::InvalidId.message(), "invalid session id");
    assert!(Session::is_stored("s1", true));
    assert!(!Session::is_stored("s1", false));
}

#[test]
fn new_ids_are_unique_within_a_second() {
    // Two "new chat" clicks in the same second must not collide, or the
    // second session overwrites the first's transcript.
    let mut mint = IdMint::new();
    let ids: Vec<String> = (0..5).map(|_| Session::new_id(&mut mint, 1_788_269_019)).collect();
    let unique: std::collections::HashSet<&String> = ids.iter().collect();
    assert_eq!(unique.len(), ids.len(), "ids collided: {ids:?}");
    for id in &ids {
        assert!(is_valid_id(id), "{id} must survive path validation");
    }
    assert_eq!(ids[0], "s1788269019");
    assert_eq!(ids[2], "s1788269019_2");
    assert_eq!(Session::new_id(&mut mint, 1_788_269_020), "s1788269020");
}

#[test]
fn long_titles_are_cut_on_a_char_boundary() {
    let title = truncate_title(&"á".repeat(200));
    assert!(title.chars().count() <= MAX_TITLE_CHARS + 1, "{title}");
    assert!(title.ends_with('…'));
    // Multi-line input collapses to one line for the sidebar.
    assert_eq!(truncate_title("hola\n   mundo"), "hola mundo");
}

#[test]
fn a_title_is_not_cut_in_front_of_its_ellipsis_space() {
    let s = format!("{} bbbb", "a".repeat(59));
    assert_eq!(truncate_title(&s), format!("{}…", "a".repeat(59)));
}

#[test]
fn an_empty_conversation_has_a_placeholder_title() {
    let s = Disk::new().open("s1");
    assert_eq!(s.display_title(), "New chat");
    assert!(s.is_untitled());
    let m = s.meta(9);
    assert_eq!((m.id.as_str(), m.title.as_str(), m.updated_at, m.messages), ("s1", "New chat", 9, 0));
}

#[test]
fn paths_lie_inside_the_sessions_directory() {
    assert_eq!(dir("/r"), "/r/sessions");
    assert_eq!(transcript_path("/r/sessions", "s1"), "/r/sessions/s1.jsonl");
}

#[test]
fn only_transcripts_are_listed() {
    assert_eq!(transcript_id("s1.jsonl"), Some("s1".to_string()));
    assert_eq!(transcript_id("s1.jsonl.tmp"), None);
    assert_eq!(transcript_id("index.json"), None);
    assert_eq!(transcript_id(".jsonl"), Some("".to_string()));
    assert_eq!(transcript_id("x"), None);
}

#[test]
fn a_row_is_the_same_from_memory_and_from_disk() {
    let mut d = Disk::new();
    let mut s = d.open("s1");
    d.append(&mut s, assistant("hola"));
    d.append(&mut s, user("uno"));
    assert_eq!(scan_meta("s1", d.body.as_deref().unwrap(), 3), s.meta(3));
    d.set_title(&mut s, "dos");
    assert_eq!(scan_meta("s1", d.body.as_deref().unwrap(), 4), s.meta(4));
}

#[test]
fn the_newest_conversation_comes_first() {
    let metas = sort_newest_first(vec![meta("a", 1), meta("b", 3), meta("c", 3), meta("d", 2)]);
    let ids: Vec<&str> = metas.iter().map(|m| m.id.as_str()).collect();
    assert_eq!(ids, ["c", "b", "d", "a"]);

    let touched = Session::touch_index(metas, meta("a", 9));
    let ids: Vec<&str> = touched.iter().map(|m| m.id.as_str()).collect();
    assert_eq!(ids, ["a", "c", "b", "d"]);
    assert_eq!(Session::touch_index(touched, meta("e", 0)).len(), 5);
}

#[test]
fn the_listing_is_read_back_as_it_was_written() {
    let metas = vec![
        SessionMeta { id: "s1".into(), title: "a \"b\"\n".into(), updated_at: u64::MAX, messages: 3 },
        meta("s2", 0),
    ];
    let text = index_text(&metas);
    assert_eq!(read_index(&text), Some(metas));
    assert_eq!(read_index("[]"), Some(vec![]));
    assert_eq!(read_index("{}"), None);
    assert_eq!(read_index(r#"[{"id":"x"}]"#), None);
}

#[test]
fn a_listing_that_other_tools_wrote_is_read() {
    let text = r#"[{"id":"s1","title":"t","updated_at":5,"messages":1,"extra":true}]"#;
    assert_eq!(read_index(text), Some(vec![meta("s1", 5)]));
}

#[test]
fn entries_are_read_in_any_order_of_members() {
    let line = r#"{"type":"message","role":"toolResult","tool_call_id":"c","tool_name":"ls","content":"x","is_error":true,"blob":"/p"}"#;
    let e = Entry::Message(Message::ToolResult {
        tool_call_id: "c".into(),
        tool_name: "ls".into(),
        content: "x".into(),
        is_error: true,
        blob: Some("/p".into()),
    });
    assert_eq!(Entry::from_line(line), Some(e));
    let line = r#"{"type":"message","role":"assistant","content":[{"type":"thinking","text":"t"}],"stop_reason":"length"}"#;
    let e = Entry::Message(Message::Assistant {
        content: vec![ContentBlock::Thinking { text: "t".into(), signature: None }],
        usage: Usage::default(),
        stop_reason: StopReason::Length,
        error: None,
    });
    assert_eq!(Entry::from_line(line), Some(e));
    assert_eq!(
        Entry::from_line(r#"{"type":"title","text":"x"}"#),
        Some(Entry::Title { text: "x".into() })
    );
    for bad in [r#"{"type":"Title","text":"x"}"#, r#"{"type":"title"}"#, "[]", "", r#"{"type":"message","role":"user"}"#] {
        assert_eq!(Entry::from_line(bad), None, "{bad}");
    }
}

#[test]
fn every_kind_of_entry_is_read_back() {
    let entries = vec![
        Entry::Message(user("a\nb\u{2028}")),
        Entry::Message(Message::Assistant {
            content: vec![
                ContentBlock::text("".into()),
                ContentBlock::Thinking { text: "t".into(), signature: Some("s".into()) },
            ],
            usage: Usage { input: 1, output: 2, cache_read: 3, cache_write: u32::MAX },
            stop_reason: StopReason::Aborted,
            error: Some("e".into()),
        }),
        Session::record_compaction("sum", 3, 7),
        Session::title_entry("  my   title "),
    ];
    for e in entries {
        let line = e.to_line();
        assert!(!line.contains('\n'));
        assert_eq!(e.to_record(), format!("{line}\n"));
        assert_eq!(Entry::from_line(&line), Some(e));
    }
}

#[test]
fn a_conversation_is_reopened_as_it_was_left() {
    let mut d = Disk::new();
    let mut s = d.open("s1");
    let same = |d: &Disk, s: &Session| {
        let again = d.open("s1");
        assert_eq!(again.messages, s.messages);
        assert_eq!(again.title, s.title);
        assert_eq!(again.compaction, s.compaction);
    };
    d.append(&mut s, user("uno"));
    d.append(&mut s, assistant("dos"));
    same(&d, &s);
    d.set_title(&mut s, "Notas");
    d.append(&mut s, user("tres"));
    same(&d, &s);
    let kept = vec![user("resumen"), user("tres")];
    d.body = Some(transcript_text(&s.compacted("resumen", 2, 90, &kept)));
    s.compact("resumen", 2, 90, kept);
    same(&d, &s);
    d.append(&mut s, assistant("cuatro"));
    let (kept, again) = s.rewind_to_last_user().unwrap();
    assert_eq!(again, "tres");
    d.rewrite(&mut s, kept);
    same(&d, &s);
    d.set_title(&mut s, "Otras notas");
    d.rewrite(&mut s, vec![]);
    same(&d, &s);
    assert!(s.rewind_to_last_user().is_none());
}

#[test]
fn an_input_with_the_mark_of_the_reader_behind_another_key_is_kept() {
    let input = JsonObject::new()
        .with("#", Json::from_u64(1))
        .with("$serde_json::private::RawValue", Json::string("1"));
    let call = ContentBlock::ToolCall { id: "c".into(), name: "n".into(), input: Json::Object(input) };
    let m = Message::Assistant {
        content: vec![call],
        usage: Usage::default(),
        stop_reason: StopReason::ToolUse,
        error: None,
    };
    let mut d = Disk::new();
    let mut s = d.open("s1");
    d.append(&mut s, m);
    assert_eq!(d.open("s1").messages, s.messages);
}
