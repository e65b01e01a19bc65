//! Terminal chat: what a line means, and how a running turn is shown.
//!
//! Output is plain lines with ANSI marks; nothing is ever redrawn.
use crate::agent::{AgentEvent, NoticeModel};
use crate::text;
use crate::tools;
use crate::types::Usage;
use vstd::prelude::*;

verus! {

broadcast use vstd::std_specs::vec::axiom_spec_len;

pub const DIM: &'static str = "\x1b[2m";

pub const BOLD: &'static str = "\x1b[1m";

pub const CYAN: &'static str = "\x1b[36m";

pub const RED: &'static str = "\x1b[31m";

pub const RESET: &'static str = "\x1b[0m";

/// What is shown at the start.
pub fn banner(version: &str, model: &str, session_id: &str) -> (r: String)
    ensures
        r@ == BOLD@ + "rustclaw"@ + RESET@ + " "@ + DIM@ + "v"@ + version@ + " · "@ + model@
            + " · session "@ + session_id@ + RESET@ + "\n"@ + DIM@
            + "Type your message. /help for commands, Ctrl-C to interrupt, /quit to exit."@ + RESET@
            + "\n\n"@,
{
    let mut out = BOLD.to_owned();
    out.push_str("rustclaw");
    out.push_str(RESET);
    out.push_str(" ");
    out.push_str(DIM);
    out.push_str("v");
    out.push_str(version);
    out.push_str(" · ");
    out.push_str(model);
    out.push_str(" · session ");
    out.push_str(session_id);
    out.push_str(RESET);
    out.push_str("\n");
    out.push_str(DIM);
    out.push_str("Type your message. /help for commands, Ctrl-C to interrupt, /quit to exit.");
    out.push_str(RESET);
    out.push_str("\n\n");
    out
}

/// What a line asks for.
#[derive(Debug, PartialEq)]
pub enum Input {
    Nothing,
    Quit,
    Help,
    /// A fresh session.
    New,
    Tools,
    /// The token counts of the last turn.
    Usage,
    /// A message for the agent.
    Say(String),
}

/// What a line asks for.
pub fn input(line: &str) -> (r: Input)
    ensures
        ({
            let t = text::trim(line@);
            match r {
                Input::Nothing => t.len() == 0,
                Input::Quit => t == "/quit"@ || t == "/exit"@,
                Input::Help => t == "/help"@,
                Input::New => t == "/new"@,
                Input::Tools => t == "/tools"@,
                Input::Usage => t == "/usage"@,
                Input::Say(s) => s@ == t && t.len() > 0 && t != "/quit"@ && t != "/exit"@ && t
                    != "/help"@ && t != "/new"@ && t != "/tools"@ && t != "/usage"@,
            }
        }),
{
    let t = text::trimmed(line);
    if t.as_str().is_empty() {
        Input::Nothing
    } else if text::str_eq(t.as_str(), "/quit") || text::str_eq(t.as_str(), "/exit") {
        Input::Quit
    } else if text::str_eq(t.as_str(), "/help") {
        Input::Help
    } else if text::str_eq(t.as_str(), "/new") {
        Input::New
    } else if text::str_eq(t.as_str(), "/tools") {
        Input::Tools
    } else if text::str_eq(t.as_str(), "/usage") {
        Input::Usage
    } else {
        Input::Say(t)
    }
}

/// What `/help` shows.
pub fn help() -> (r: String)
    ensures
        r@ == DIM@
            + "/quit   end the session\n/new    start a fresh session\n/tools  list available tools\n/usage  token usage of the last turn"@
            + RESET@ + "\n"@,
{
    let mut out = DIM.to_owned();
    out.push_str(
        "/quit   end the session\n/new    start a fresh session\n/tools  list available tools\n/usage  token usage of the last turn",
    );
    out.push_str(RESET);
    out.push_str("\n");
    out
}

/// `s` up to its first full stop that a space follows, where there is one.
pub open spec fn sentence(s: Seq<char>) -> Seq<char> {
    match text::find_from(s, seq!['.', ' '], 0) {
        Some(i) => s.take(i).push('.'),
        None => s,
    }
}

/// The first sentence of a description.
pub fn first_sentence(s: &str) -> (r: String)
    ensures
        r@ == sentence(s@),
{
    let cs = text::chars_of(s);
    let stop: Vec<char> = vec!['.', ' '];
    assert(stop@ =~= seq!['.', ' ']);
    proof {
        text::lemma_find_from(s@, seq!['.', ' '], 0);
    }
    match text::find_in(cs.as_slice(), stop.as_slice(), 0) {
        Some(i) => {
            let mut out = text::slice_of(cs.as_slice(), 0, i);
            out.push('.');
            assert(out@ =~= s@.take(i as int).push('.'));
            out
        },
        None => s.to_owned(),
    }
}

/// A tool in the list that `/tools` shows.
pub open spec fn tool_line(kind: tools::ToolKind) -> Seq<char> {
    DIM@ + text::left_aligned(kind.name(), 10) + RESET@ + " "@ + sentence(kind.description())
        + "\n"@
}

/// The first `n` tools in the list that `/tools` shows.
pub open spec fn tool_lines(n: int) -> Seq<char>
    decreases n,
{
    if n <= 0 {
        Seq::empty()
    } else {
        tool_lines(n - 1) + tool_line(tools::kinds()[n - 1])
    }
}

/// What `/tools` shows.
pub fn tool_list() -> (r: String)
    ensures
        r@ == tool_lines(tools::kinds().len() as int),
{
    let all = tools::tools();
    let mut out = String::new();
    let mut i: usize = 0;
    while i < all.len()
        invariant
            i <= all@.len(),
            all@.len() == tools::kinds().len(),
            forall|j: int|
                0 <= j < tools::kinds().len() ==> (#[trigger] all@[j]).is_for(tools::kinds()[j]),
            out@ == tool_lines(i as int),
        decreases all@.len() - i,
    {
        assert(all@[i as int].is_for(tools::kinds()[i as int]));
        let mut line = DIM.to_owned();
        let name = text::align_left(all[i].name, 10);
        line.push_str(name.as_str());
        line.push_str(RESET);
        line.push_str(" ");
        let about = first_sentence(all[i].description);
        line.push_str(about.as_str());
        line.push_str("\n");
        out.push_str(line.as_str());
        i += 1;
    }
    out
}

/// What is shown behind a turn that failed.
pub fn failure(reason: &str) -> (r: String)
    ensures
        r@ == RED@ + "error:"@ + RESET@ + " "@ + reason@ + "\n\n"@,
{
    let mut out = RED.to_owned();
    out.push_str("error:");
    out.push_str(RESET);
    out.push_str(" ");
    out.push_str(reason);
    out.push_str("\n\n");
    out
}

/// `s` on one line, cut.
pub open spec fn flattened(s: Seq<char>) -> Seq<char> {
    text::prefix(text::replace(s, "\n"@, " "@), 100)
}

/// `s` on one line, cut.
pub fn one_line(s: &str) -> (r: String)
    ensures
        r@ == flattened(s@),
{
    let flat = text::str_replace(s, "\n", " ");
    text::take_chars(flat.as_str(), 100)
}

/// A preview is on one line and bounded.
pub proof fn law_previews_are_one_line(s: Seq<char>)
    ensures
        !flattened(s).contains('\n'),
        flattened(s).len() <= 100,
{
    reveal_strlit("\n");
    reveal_strlit(" ");
    assert("\n"@ =~= seq!['\n']);
    text::lemma_replace_char_gone(s, '\n', " "@, 0);
    let flat = text::replace(s, "\n"@, " "@);
    assert forall|i: int| 0 <= i < flattened(s).len() implies flattened(s)[i] != '\n' by {
        assert(flattened(s)[i] == flat[i]);
        assert(flat.contains(flat[i]));
    }
}

/// A line feed where text was being streamed.
pub open spec fn break_if(streaming: bool) -> Seq<char> {
    if streaming {
        "\n"@
    } else {
        ""@
    }
}

/// The token counts of a turn, where there are any.
pub open spec fn usage_line(usage: Usage) -> Seq<char> {
    if usage.input > 0 || usage.output > 0 {
        DIM@ + "  "@ + text::decimal(usage.input as nat) + " in / "@ + text::decimal(
            usage.output as nat,
        ) + " out"@ + (if usage.cache_read > 0 {
            " / "@ + text::decimal(usage.cache_read as nat) + " cached"@
        } else {
            ""@
        }) + RESET@ + "\n"@
    } else {
        ""@
    }
}

/// What is printed of an event, where `streaming` says whether the cursor stands
/// behind streamed text.
pub open spec fn printed(streaming: bool, ev: NoticeModel) -> Seq<char> {
    match ev {
        NoticeModel::TextDelta(t) => t,
        NoticeModel::ToolStart { name, input } => break_if(streaming) + DIM@ + "  ⚙ "@ + name
            + " "@ + input + RESET@ + "\n"@,
        NoticeModel::ToolEnd { name, is_error, preview } => DIM@ + "  "@ + (if is_error {
            RED@ + "✗"@ + RESET@
        } else {
            DIM@ + "✓"@ + RESET@
        }) + DIM@ + " "@ + name + ": "@ + flattened(preview) + RESET@ + "\n"@,
        NoticeModel::Compacted { dropped } => DIM@ + "  ⓘ compacted context ("@ + text::decimal(
            dropped as nat,
        ) + " messages summarized)"@ + RESET@ + "\n"@,
        NoticeModel::Error(e) => break_if(streaming) + RED@ + "  ✗ "@ + e + RESET@ + "\n"@,
        NoticeModel::TurnEnd { usage } => break_if(streaming) + usage_line(usage),
        _ => ""@,
    }
}

/// Whether the cursor stands behind streamed text after an event.
pub open spec fn streaming_after(streaming: bool, ev: NoticeModel) -> bool {
    match ev {
        NoticeModel::TextDelta(_) => true,
        NoticeModel::ToolStart { .. } => false,
        NoticeModel::Error(_) => false,
        _ => streaming,
    }
}

/// Shows the events of a turn as they come.
pub struct Printer {
    pub streaming: bool,
}

fn break_of(streaming: bool) -> (r: String)
    ensures
        r@ == break_if(streaming),
{
    if streaming {
        "\n".to_owned()
    } else {
        "".to_owned()
    }
}

fn usage_of(usage: &Usage) -> (r: String)
    ensures
        r@ == usage_line(*usage),
{
    if usage.input == 0 && usage.output == 0 {
        return "".to_owned();
    }
    let mut out = DIM.to_owned();
    out.push_str("  ");
    let a = text::decimal_of(usage.input as u64);
    out.push_str(a.as_str());
    out.push_str(" in / ");
    let b = text::decimal_of(usage.output as u64);
    out.push_str(b.as_str());
    out.push_str(" out");
    let mut cached = "".to_owned();
    if usage.cache_read > 0 {
        cached = " / ".to_owned();
        let c = text::decimal_of(usage.cache_read as u64);
        cached.push_str(c.as_str());
        cached.push_str(" cached");
    }
    out.push_str(cached.as_str());
    out.push_str(RESET);
    out.push_str("\n");
    out
}

/// What `/usage` shows.
pub fn usage(last: &Usage) -> (r: String)
    ensures
        r@ == (if last.input > 0 || last.output > 0 {
            usage_line(*last)
        } else {
            DIM@ + "  no token counts yet"@ + RESET@ + "\n"@
        }),
{
    if last.input > 0 || last.output > 0 {
        usage_of(last)
    } else {
        let mut out = DIM.to_owned();
        out.push_str("  no token counts yet");
        out.push_str(RESET);
        out.push_str("\n");
        out
    }
}

impl Printer {
    pub fn new() -> (r: Printer)
        ensures
            !r.streaming,
    {
        Printer { streaming: false }
    }

    /// What is printed of an event, and whether it was the last one of the turn.
    pub fn show(&mut self, ev: &AgentEvent) -> (r: (String, bool))
        ensures
            r.0@ == printed(old(self).streaming, ev@),
            r.1 == (ev@ is TurnEnd),
            final(self).streaming == streaming_after(old(self).streaming, ev@),
    {
        match ev {
            AgentEvent::TextDelta(t) => {
                self.streaming = true;
                (t.clone(), false)
            },
            AgentEvent::ToolStart { name, input } => {
                let mut out = break_of(self.streaming);
                self.streaming = false;
                out.push_str(DIM);
                out.push_str("  ⚙ ");
                out.push_str(name.as_str());
                out.push_str(" ");
                out.push_str(input.as_str());
                out.push_str(RESET);
                out.push_str("\n");
                (out, false)
            },
            AgentEvent::ToolEnd { name, is_error, preview } => {
                let mut mark;
                if *is_error {
                    mark = RED.to_owned();
                    mark.push_str("✗");
                } else {
                    mark = DIM.to_owned();
                    mark.push_str("✓");
                }
                mark.push_str(RESET);
                let mut out = DIM.to_owned();
                out.push_str("  ");
                out.push_str(mark.as_str());
                out.push_str(DIM);
                out.push_str(" ");
                out.push_str(name.as_str());
                out.push_str(": ");
                let flat = one_line(preview.as_str());
                out.push_str(flat.as_str());
                out.push_str(RESET);
                out.push_str("\n");
                (out, false)
            },
            AgentEvent::Compacted { dropped } => {
                let mut out = DIM.to_owned();
                out.push_str("  ⓘ compacted context (");
                let n = text::decimal_of(*dropped as u64);
                out.push_str(n.as_str());
                out.push_str(" messages summarized)");
                out.push_str(RESET);
                out.push_str("\n");
                (out, false)
            },
            AgentEvent::Error(e) => {
                let mut out = break_of(self.streaming);
                self.streaming = false;
                out.push_str(RED);
                out.push_str("  ✗ ");
                out.push_str(e.as_str());
                out.push_str(RESET);
                out.push_str("\n");
                (out, false)
            },
            AgentEvent::TurnEnd { usage } => {
                let mut out = break_of(self.streaming);
                let counts = usage_of(usage);
                out.push_str(counts.as_str());
                (out, true)
            },
            _ => ("".to_owned(), false),
        }
    }
}

/// The text of an answer is printed as it streams and the reply is not printed again: what
/// is printed of a turn that only speaks is what was said.
pub proof fn law_text_is_printed_as_it_is(streaming: bool, said: Seq<char>)
    ensures
        printed(streaming, NoticeModel::TextDelta(said)) == said,
        printed(streaming, NoticeModel::Reply(said)).len() == 0,
        printed(streaming, NoticeModel::ThinkingDelta(said)).len() == 0,
        printed(streaming, NoticeModel::TurnStart).len() == 0,
{
    reveal_strlit("");
}

/// A line of its own is begun for a tool or an error where text stands on the line, and
/// only there.
pub proof fn law_notes_begin_their_own_line(
    ev: NoticeModel,
    said: Seq<char>,
    streaming: bool,
)
    requires
        ev is ToolStart || ev is Error || ev is TurnEnd,
    ensures
        streaming_after(streaming, NoticeModel::TextDelta(said)),
        printed(true, ev) == "\n"@ + printed(false, ev),
        !(ev is TurnEnd) ==> !streaming_after(streaming, ev),
{
    reveal_strlit("");
    reveal_strlit("\n");
    assert(""@ =~= Seq::<char>::empty());
    assert(printed(true, ev) =~= "\n"@ + printed(false, ev));
}

/// Notes tell what they are about: a tool its name and its input, an error what went wrong.
pub proof fn law_notes_tell_what_happened(
    streaming: bool,
    name: Seq<char>,
    input: Seq<char>,
    reason: Seq<char>,
)
    ensures
        text::contains_str(
            printed(streaming, NoticeModel::ToolStart { name, input }),
            name + " "@ + input,
        ),
        text::contains_str(printed(streaming, NoticeModel::Error(reason)), reason),
        text::contains_str(
            printed(streaming, NoticeModel::ToolEnd { name, is_error: true, preview: input }),
            name + ": "@ + flattened(input),
        ),
        text::contains_str(
            printed(streaming, NoticeModel::ToolEnd { name, is_error: false, preview: input }),
            name + ": "@ + flattened(input),
        ),
{
    let told = name + " "@ + input;
    let a = break_if(streaming) + DIM@ + "  ⚙ "@;
    let b = RESET@ + "\n"@;
    let p = printed(streaming, NoticeModel::ToolStart { name, input });
    assert(p =~= a + told + b);
    text::law_found_is_there(p, told);
    let e = printed(streaming, NoticeModel::Error(reason));
    assert(e =~= (break_if(streaming) + RED@ + "  ✗ "@) + reason + b);
    text::law_found_is_there(e, reason);
    let shown = name + ": "@ + flattened(input);
    let bad = printed(streaming, NoticeModel::ToolEnd { name, is_error: true, preview: input });
    assert(bad =~= (DIM@ + "  "@ + (RED@ + "✗"@ + RESET@) + DIM@ + " "@) + shown + b);
    text::law_found_is_there(bad, shown);
    let good = printed(streaming, NoticeModel::ToolEnd { name, is_error: false, preview: input });
    assert(good =~= (DIM@ + "  "@ + (DIM@ + "✓"@ + RESET@) + DIM@ + " "@) + shown + b);
    text::law_found_is_there(good, shown);
}

/// The first sentence of a description ends with its first full stop that a space follows;
/// one without such a stop is shown whole.
pub proof fn law_first_sentence(a: Seq<char>, b: Seq<char>)
    requires
        !a.contains('.'),
    ensures
        sentence(a + seq!['.', ' '] + b) == a.push('.'),
        sentence(a) == a,
{
    let s = a + seq!['.', ' '] + b;
    let n = a.len() as int;
    let stop = seq!['.', ' '];
    assert(s.subrange(n, n + 2) =~= stop);
    assert forall|j: int| 0 <= j < n implies !#[trigger] text::occurs_at(s, stop, j) by {
        if text::occurs_at(s, stop, j) {
            assert(s.subrange(j, j + 2)[0] == s[j]);
            assert(a.contains(a[j]));
        }
    }
    text::lemma_found_at(s, stop, 0, n);
    assert(s.take(n) =~= a);
    text::lemma_find_from(a, stop, 0);
    if let Some(j) = text::find_from(a, stop, 0) {
        assert(a.subrange(j, j + 2)[0] == a[j]);
        assert(a.contains(a[j]));
    }
}

/// Every tool is listed, in order, under its name.
pub proof fn law_every_tool_is_listed()
    ensures
        tool_lines(tools::kinds().len() as int) == tools::kinds().flat_map(
            |kind: tools::ToolKind|
                DIM@ + text::left_aligned(kind.name(), 10) + RESET@ + " "@ + sentence(
                    kind.description(),
                ) + "\n"@,
        ),
{
    let f = |kind: tools::ToolKind|
        DIM@ + text::left_aligned(kind.name(), 10) + RESET@ + " "@ + sentence(kind.description())
            + "\n"@;
    lemma_tool_lines(tools::kinds().len() as int, f);
    assert(tools::kinds().take(tools::kinds().len() as int) =~= tools::kinds());
}

proof fn lemma_tool_lines(n: int, f: spec_fn(tools::ToolKind) -> Seq<char>)
    requires
        0 <= n <= tools::kinds().len(),
        forall|kind: tools::ToolKind| #[trigger] f(kind) == tool_line(kind),
    ensures
        tool_lines(n) == tools::kinds().take(n).flat_map(f),
    decreases n,
{
    let some = tools::kinds().take(n);
    if n > 0 {
        lemma_tool_lines(n - 1, f);
        assert(some.drop_last() =~= tools::kinds().take(n - 1));
        text::lemma_flat_map_last(some, f);
    } else {
        assert(some.map_values(f) =~= Seq::empty());
    }
}

/// A preview is the text itself, on one line, as far as there is room.
pub proof fn law_previews_keep_the_text(s: Seq<char>)
    ensures
        flattened(s).is_prefix_of(
            s.map_values(
                |c: char|
                    if c == '\n' {
                        ' '
                    } else {
                        c
                    },
            ),
        ),
        flattened(s).len() == (if s.len() <= 100 {
            s.len() as int
        } else {
            100
        }),
{
    reveal_strlit("\n");
    reveal_strlit(" ");
    assert("\n"@ =~= seq!['\n']);
    assert(" "@ =~= seq![' ']);
    text::lemma_one_for_one(s, '\n', ' ');
    let m = s.map_values(
        |c: char|
            if c == '\n' {
                ' '
            } else {
                c
            },
    );
    assert(text::replace(s, "\n"@, " "@) == m);
}

/// What a turn used is told, if it used anything.
pub proof fn law_usage_is_told(usage: Usage)
    ensures
        usage.input == 0 && usage.output == 0 ==> usage_line(usage).len() == 0,
        usage.input > 0 || usage.output > 0 ==> text::contains_str(
            usage_line(usage),
            text::decimal(usage.input as nat) + " in / "@ + text::decimal(usage.output as nat)
                + " out"@,
        ),
        (usage.input > 0 || usage.output > 0) && usage.cache_read > 0 ==> text::contains_str(
            usage_line(usage),
            text::decimal(usage.cache_read as nat) + " cached"@,
        ),
{
    reveal_strlit("");
    if usage.input > 0 || usage.output > 0 {
        let told = text::decimal(usage.input as nat) + " in / "@ + text::decimal(
            usage.output as nat,
        ) + " out"@;
        let cached = text::decimal(usage.cache_read as nat) + " cached"@;
        let more = if usage.cache_read > 0 {
            " / "@ + text::decimal(usage.cache_read as nat) + " cached"@
        } else {
            ""@
        };
        let line = usage_line(usage);
        assert(line =~= (DIM@ + "  "@) + told + (more + RESET@ + "\n"@));
        text::law_found_is_there(line, told);
        if usage.cache_read > 0 {
            assert(line =~= (DIM@ + "  "@ + told + " / "@) + cached + (RESET@ + "\n"@));
            text::law_found_is_there(line, cached);
        }
    }
}

} // verus!
