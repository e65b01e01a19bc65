use rustclaw::agent::AgentEvent;
use rustclaw::repl::{
    banner, failure, first_sentence, help, input, one_line, tool_list, usage, Input, Printer, DIM, RED,
    RESET,
};
use rustclaw::types::Usage;

#[test]
fn tool_previews_are_flattened_and_bounded() {
    let s = one_line(&format!("a\nb{}", "c".repeat(500)));
    assert!(!s.contains('\n'));
    assert!(s.chars().count() <= 100);
    assert_eq!(s, format!("a b{}", "c".repeat(97)));
}

#[test]
fn help_text_shows_only_the_first_sentence_of_a_description() {
    assert_eq!(first_sentence("Does a thing. And more detail here."), "Does a thing.");
    assert_eq!(first_sentence("No period"), "No period");
}

#[test]
fn a_line_is_a_command_or_a_message() {
    assert_eq!(input("   "), Input::Nothing);
    assert_eq!(input("/quit"), Input::Quit);
    assert_eq!(input(" /exit \n"), Input::Quit);
    assert_eq!(input("/help"), Input::Help);
    assert_eq!(input("/tools"), Input::Tools);
    assert_eq!(input("/new"), Input::New);
    assert_eq!(input("/usage"), Input::Usage);
    assert_eq!(input("  hola  "), Input::Say("hola".into()));
    assert_eq!(input("/quit now"), Input::Say("/quit now".into()));
}

#[test]
fn every_tool_is_listed_with_its_first_sentence() {
    let s = tool_list();
    assert_eq!(s.lines().count(), 8);
    assert!(s.starts_with(&format!(
        "{DIM}exec      {RESET} Run a shell command and return its stdout, stderr and exit code.\n"
    )));
}

#[test]
fn the_banner_names_the_model_and_the_session() {
    let s = banner("1.2", "m", "s1");
    assert!(s.contains("v1.2 · m · session s1"));
    assert!(s.ends_with("\n\n"));
    assert!(help().contains("/tools  list available tools\n"));
    assert_eq!(failure("x"), format!("{RED}error:{RESET} x\n\n"));
}

#[test]
fn a_turn_is_shown_as_it_runs() {
    let mut p = Printer::new();
    let mut out = String::new();
    let events = vec![
        AgentEvent::TurnStart,
        AgentEvent::TextDelta("hi".into()),
        AgentEvent::ToolStart { name: "exec".into(), input: "command=ls".into() },
        AgentEvent::ToolEnd { name: "exec".into(), is_error: true, preview: "a\nb".into() },
        AgentEvent::Compacted { dropped: 3 },
        AgentEvent::TextDelta("done".into()),
        AgentEvent::Reply("done".into()),
    ];
    for ev in &events {
        let (text, last) = p.show(ev);
        out.push_str(&text);
        assert!(!last);
    }
    let usage = Usage { input: 7, output: 3, cache_read: 2, cache_write: 0 };
    let (text, last) = p.show(&AgentEvent::TurnEnd { usage });
    out.push_str(&text);
    assert!(last);
    assert_eq!(
        out,
        format!(
            "hi\n{DIM}  ⚙ exec command=ls{RESET}\n{DIM}  {RED}✗{RESET}{DIM} exec: a b{RESET}\n\
             {DIM}  ⓘ compacted context (3 messages summarized){RESET}\ndone\n\
             {DIM}  7 in / 3 out / 2 cached{RESET}\n"
        )
    );
}

#[test]
fn an_error_breaks_the_line_that_was_streaming() {
    let mut p = Printer::new();
    p.show(&AgentEvent::TextDelta("x".into()));
    assert_eq!(p.show(&AgentEvent::Error("bad".into())).0, format!("\n{RED}  ✗ bad{RESET}\n"));
    assert_eq!(p.show(&AgentEvent::Error("bad".into())).0, format!("{RED}  ✗ bad{RESET}\n"));
    assert_eq!(p.show(&AgentEvent::TurnEnd { usage: Usage::default() }), (String::new(), true));
}

#[test]
fn the_counts_of_the_last_turn_are_shown_on_request() {
    let last = Usage { input: 7, output: 3, cache_read: 2, cache_write: 0 };
    assert_eq!(usage(&last), format!("{DIM}  7 in / 3 out / 2 cached{RESET}\n"));
    assert_eq!(usage(&Usage::default()), format!("{DIM}  no token counts yet{RESET}\n"));
}
