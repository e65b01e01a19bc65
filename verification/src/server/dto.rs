//! What the browser gets of a conversation, and its export as Markdown.
//!
//! Messages carry detail that the page has no use for: signatures of reasoning,
//! paths of spilled output, token counts. It is left out here.
use crate::agent;
use crate::json;
use crate::json::{Json, JsonModel, JsonObject};
use crate::llm::openai;
use crate::server::prose;
use crate::text;
use crate::types;
use crate::types::{ContentBlock, ContentModel, Message, MessageModel};
use vstd::prelude::*;

verus! {

broadcast use vstd::std_specs::vec::axiom_spec_len;

/// A message as the page shows it.
#[derive(Debug, PartialEq)]
pub struct UiMessage {
    /// "user", "assistant" or "tool".
    pub role: &'static str,
    pub text: String,
    pub tool_calls: Vec<UiToolCall>,
    pub tool: Option<UiToolResult>,
    pub is_error: bool,
}

#[derive(Debug, PartialEq)]
pub struct UiToolCall {
    pub name: String,
    /// The arguments on one line.
    pub input: String,
}

#[derive(Debug, PartialEq)]
pub struct UiToolResult {
    pub name: String,
    pub is_error: bool,
    pub preview: String,
}

/// What a [`UiToolCall`] holds.
pub struct UiCallModel {
    pub name: Seq<char>,
    pub input: Seq<char>,
}

/// What a [`UiToolResult`] holds.
pub struct UiResultModel {
    pub name: Seq<char>,
    pub is_error: bool,
    pub preview: Seq<char>,
}

/// What a [`UiMessage`] holds.
pub struct UiModel {
    pub role: Seq<char>,
    pub text: Seq<char>,
    pub tool_calls: Seq<UiCallModel>,
    pub tool: Option<UiResultModel>,
    pub is_error: bool,
}

impl UiToolCall {
    pub open spec fn view(&self) -> UiCallModel {
        UiCallModel { name: self.name@, input: self.input@ }
    }
}

impl UiToolResult {
    pub open spec fn view(&self) -> UiResultModel {
        UiResultModel { name: self.name@, is_error: self.is_error, preview: self.preview@ }
    }
}

pub open spec fn ui_calls(cs: Seq<UiToolCall>) -> Seq<UiCallModel> {
    Seq::new(cs.len(), |i: int| cs[i]@)
}

impl UiMessage {
    pub open spec fn view(&self) -> UiModel {
        UiModel {
            role: self.role@,
            text: self.text@,
            tool_calls: ui_calls(self.tool_calls@),
            tool: match self.tool {
                Some(t) => Some(t@),
                None => None,
            },
            is_error: self.is_error,
        }
    }
}

/// How much of a tool result the browser gets.
pub const MAX_TOOL_PREVIEW: usize = 2000;

/// The tool calls among the blocks, as the page shows them.
pub open spec fn shown_calls(bs: Seq<ContentModel>) -> Seq<UiCallModel>
    decreases bs.len(),
{
    if bs.len() == 0 {
        Seq::empty()
    } else {
        match bs.last() {
            ContentModel::ToolCall { name, input, .. } => shown_calls(bs.drop_last()).push(
                UiCallModel { name, input: agent::summarized(input) },
            ),
            _ => shown_calls(bs.drop_last()),
        }
    }
}

/// A message as the page shows it. An assistant turn without text, calls and
/// error is not shown at all.
pub open spec fn shown(m: MessageModel) -> Option<UiModel> {
    match m {
        MessageModel::User { content } => Some(
            UiModel {
                role: "user"@,
                text: content,
                tool_calls: Seq::empty(),
                tool: None,
                is_error: false,
            },
        ),
        MessageModel::Assistant { content, error, .. } => if openai::joined_text(content).len() == 0
            && shown_calls(content).len() == 0 && error is None {
            None
        } else {
            Some(
                UiModel {
                    role: "assistant"@,
                    text: openai::joined_text(content),
                    tool_calls: shown_calls(content),
                    tool: None,
                    is_error: error is Some,
                },
            )
        },
        MessageModel::ToolResult { tool_name, content, is_error, .. } => Some(
            UiModel {
                role: "tool"@,
                text: Seq::empty(),
                tool_calls: Seq::empty(),
                tool: Some(
                    UiResultModel {
                        name: tool_name,
                        is_error,
                        preview: text::prefix(content, MAX_TOOL_PREVIEW as nat),
                    },
                ),
                is_error,
            },
        ),
    }
}

/// A conversation as the page shows it.
pub open spec fn shown_all(ms: Seq<MessageModel>) -> Seq<UiModel>
    decreases ms.len(),
{
    if ms.len() == 0 {
        Seq::empty()
    } else {
        match shown(ms.last()) {
            Some(u) => shown_all(ms.drop_last()).push(u),
            None => shown_all(ms.drop_last()),
        }
    }
}

/// The blocks without the reasoning.
pub open spec fn without_thinking(bs: Seq<ContentModel>) -> Seq<ContentModel>
    decreases bs.len(),
{
    if bs.len() == 0 {
        Seq::empty()
    } else if bs.last() is Thinking {
        without_thinking(bs.drop_last())
    } else {
        without_thinking(bs.drop_last()).push(bs.last())
    }
}

proof fn lemma_thinking_is_unseen(bs: Seq<ContentModel>)
    ensures
        openai::joined_text(without_thinking(bs)) == openai::joined_text(bs),
        shown_calls(without_thinking(bs)) == shown_calls(bs),
    decreases bs.len(),
{
    if bs.len() > 0 {
        lemma_thinking_is_unseen(bs.drop_last());
        if !(bs.last() is Thinking) {
            let kept = without_thinking(bs.drop_last());
            assert(kept.push(bs.last()).drop_last() =~= kept);
        }
    }
}

/// Reasoning, token counts and the paths of spilled output never reach the
/// browser: what is shown is the same without them.
pub proof fn law_internals_never_reach_the_browser(m: MessageModel, other: MessageModel)
    requires
        match (m, other) {
            (
                MessageModel::Assistant { content, error, .. },
                MessageModel::Assistant { content: c2, error: e2, .. },
            ) => c2 == without_thinking(content) && error == e2,
            (
                MessageModel::ToolResult { tool_name, content, is_error, .. },
                MessageModel::ToolResult {
                    tool_name: n2,
                    content: c2,
                    is_error: e2,
                    ..
                },
            ) => n2 == tool_name && c2 == content && e2 == is_error,
            _ => m == other,
        },
    ensures
        shown(m) == shown(other),
{
    if let MessageModel::Assistant { content, .. } = m {
        lemma_thinking_is_unseen(content);
    }
}

fn text_and_calls(content: &Vec<ContentBlock>) -> (r: (String, Vec<UiToolCall>))
    ensures
        r.0@ == openai::joined_text(types::contents(content@)),
        ui_calls(r.1@) == shown_calls(types::contents(content@)),
{
    let ghost all = types::contents(content@);
    let mut said = String::new();
    let mut calls: Vec<UiToolCall> = Vec::new();
    let mut i: usize = 0;
    assert(all.take(0) =~= Seq::empty());
    assert(ui_calls(calls@) =~= Seq::empty());
    while i < content.len()
        invariant
            i <= content@.len(),
            all == types::contents(content@),
            said@ == openai::joined_text(all.take(i as int)),
            ui_calls(calls@) == shown_calls(all.take(i as int)),
        decreases content@.len() - i,
    {
        assert(all.take(i + 1).drop_last() =~= all.take(i as int));
        assert(all.take(i + 1).last() == content@[i as int]@);
        let ghost before = calls@;
        match &content[i] {
            ContentBlock::Text { text } => said.push_str(text.as_str()),
            ContentBlock::Thinking { .. } => {},
            ContentBlock::ToolCall { name, input, .. } => {
                let call = UiToolCall {
                    name: name.clone(),
                    input: agent::summarize_input(input),
                };
                let ghost c = call@;
                calls.push(call);
                assert(ui_calls(calls@) =~= ui_calls(before).push(c));
            },
        }
        i += 1;
    }
    assert(all.take(i as int) =~= all);
    (said, calls)
}

/// A message as the page shows it.
pub fn render(m: &Message) -> (r: Option<UiMessage>)
    ensures
        match r {
            Some(u) => shown(m@) == Some(u@),
            None => shown(m@) is None,
        },
{
    let none: Vec<UiToolCall> = Vec::new();
    assert(ui_calls(none@) =~= Seq::empty());
    match m {
        Message::User { content } => Some(
            UiMessage {
                role: "user",
                text: content.clone(),
                tool_calls: none,
                tool: None,
                is_error: false,
            },
        ),
        Message::Assistant { content, error, .. } => {
            let (said, tool_calls) = text_and_calls(content);
            if said.as_str().is_empty() && tool_calls.len() == 0 && error.is_none() {
                return None;
            }
            Some(
                UiMessage {
                    role: "assistant",
                    text: said,
                    tool_calls,
                    tool: None,
                    is_error: error.is_some(),
                },
            )
        },
        Message::ToolResult { tool_name, content, is_error, .. } => {
            let r = UiMessage {
                role: "tool",
                text: String::new(),
                tool_calls: none,
                tool: Some(
                    UiToolResult {
                        name: tool_name.clone(),
                        is_error: *is_error,
                        preview: text::take_chars(content.as_str(), MAX_TOOL_PREVIEW),
                    },
                ),
                is_error: *is_error,
            };
            assert(r@.text =~= Seq::empty());
            Some(r)
        },
    }
}

/// What the page's messages hold.
pub open spec fn ui_models(us: Seq<UiMessage>) -> Seq<UiModel> {
    Seq::new(us.len(), |i: int| us[i]@)
}

/// A conversation as the page shows it.
pub fn transcript(messages: &[Message]) -> (r: Vec<UiMessage>)
    ensures
        ui_models(r@) == shown_all(types::messages(messages@)),
{
    let ghost all = types::messages(messages@);
    let mut out: Vec<UiMessage> = Vec::new();
    let mut i: usize = 0;
    assert(all.take(0) =~= Seq::empty());
    assert(ui_models(out@) =~= Seq::empty());
    while i < messages.len()
        invariant
            i <= messages@.len(),
            all == types::messages(messages@),
            ui_models(out@) == shown_all(all.take(i as int)),
        decreases messages@.len() - i,
    {
        assert(all.take(i + 1).drop_last() =~= all.take(i as int));
        assert(all.take(i + 1).last() == messages@[i as int]@);
        let ghost before = out@;
        if let Some(u) = render(&messages[i]) {
            let ghost v = u@;
            out.push(u);
            assert(ui_models(out@) =~= ui_models(before).push(v));
        }
        i += 1;
    }
    assert(all.take(i as int) =~= all);
    out
}

/// The JSON of a tool call on the page.
pub open spec fn ui_call_json(c: UiCallModel) -> JsonModel {
    JsonModel::object().with("name"@, JsonModel::Str(c.name)).with(
        "input"@,
        JsonModel::Str(c.input),
    )
}

/// The JSON of a tool result on the page.
pub open spec fn ui_result_json(t: UiResultModel) -> JsonModel {
    JsonModel::object().with("name"@, JsonModel::Str(t.name)).with(
        "isError"@,
        JsonModel::Bool(t.is_error),
    ).with("preview"@, JsonModel::Str(t.preview))
}

/// The JSON of a message on the page: members that say nothing are left out.
pub open spec fn ui_json(u: UiModel) -> JsonModel {
    let o1 = JsonModel::object().with("role"@, JsonModel::Str(u.role));
    let o2 = if u.text.len() > 0 {
        o1.with("text"@, JsonModel::Str(u.text))
    } else {
        o1
    };
    let o3 = if u.tool_calls.len() > 0 {
        o2.with(
            "toolCalls"@,
            JsonModel::Array(
                Seq::new(u.tool_calls.len(), |i: int| ui_call_json(u.tool_calls[i])),
            ),
        )
    } else {
        o2
    };
    let o4 = match u.tool {
        Some(t) => o3.with("tool"@, ui_result_json(t)),
        None => o3,
    };
    if u.is_error {
        o4.with("isError"@, JsonModel::Bool(true))
    } else {
        o4
    }
}

impl UiMessage {
    /// The JSON that the page is sent.
    pub fn to_json(&self) -> (r: Json)
        ensures
            r@ == ui_json(self@),
    {
        let mut o = JsonObject::new().with("role", Json::string(self.role));
        if !self.text.as_str().is_empty() {
            o = o.with("text", Json::string(self.text.as_str()));
        }
        if self.tool_calls.len() > 0 {
            let mut calls: Vec<Json> = Vec::new();
            let mut i: usize = 0;
            while i < self.tool_calls.len()
                invariant
                    i <= self.tool_calls@.len(),
                    calls@.len() == i,
                    forall|j: int|
                        0 <= j < i ==> (#[trigger] calls@[j])@ == ui_call_json(
                            self.tool_calls@[j]@,
                        ),
                decreases self.tool_calls@.len() - i,
            {
                calls.push(
                    Json::Object(
                        JsonObject::new().with(
                            "name",
                            Json::string(self.tool_calls[i].name.as_str()),
                        ).with("input", Json::string(self.tool_calls[i].input.as_str())),
                    ),
                );
                i += 1;
            }
            let ghost sent = Seq::new(
                self@.tool_calls.len(),
                |i: int| ui_call_json(self@.tool_calls[i]),
            );
            assert(json::models(calls@) =~= sent);
            o = o.with("toolCalls", Json::array(calls));
        }
        if let Some(t) = &self.tool {
            o =
            o.with(
                "tool",
                Json::Object(
                    JsonObject::new().with("name", Json::string(t.name.as_str())).with(
                        "isError",
                        Json::Bool(t.is_error),
                    ).with("preview", Json::string(t.preview.as_str())),
                ),
            );
        }
        if self.is_error {
            o = o.with("isError", Json::Bool(true));
        }
        Json::Object(o)
    }
}

/// `s` with the characters that make up HTML tags and entities made inert.
pub open spec fn escaped(s: Seq<char>) -> Seq<char> {
    text::replace(
        text::replace(text::replace(s, "&"@, "&amp;"@), "<"@, "&lt;"@),
        ">"@,
        "&gt;"@,
    )
}

/// A plain string in which no HTML tag or entity can render.
pub fn escape_inline(s: &str) -> (r: String)
    ensures
        r@ == escaped(s@),
{
    let a = text::str_replace(s, "&", "&amp;");
    let b = text::str_replace(a.as_str(), "<", "&lt;");
    text::str_replace(b.as_str(), ">", "&gt;")
}

/// No tag is left in an escaped string.
pub proof fn law_escaped_is_inert(s: Seq<char>)
    ensures
        !escaped(s).contains('<'),
        !escaped(s).contains('>'),
{
    reveal_strlit("<");
    reveal_strlit(">");
    reveal_strlit("&lt;");
    reveal_strlit("&gt;");
    assert("<"@ =~= seq!['<']);
    assert(">"@ =~= seq!['>']);
    let a = text::replace(s, "&"@, "&amp;"@);
    let b = text::replace(a, "<"@, "&lt;"@);
    text::lemma_replace_char_gone(a, '<', "&lt;"@, 0);
    text::lemma_replace_char_gone(b, '>', "&gt;"@, 0);
    text::lemma_replace_adds_no(b, seq!['>'], "&gt;"@, '<', 0);
}

/// Three backticks at the start of a line.
pub open spec fn fence_at(s: Seq<char>, i: int) -> bool {
    &&& text::occurs_at(s, seq!['`', '`', '`'], i)
    &&& i == 0 || s[i - 1] == '\n'
}

/// A tool call in the export.
pub open spec fn md_call(name: Seq<char>, input: JsonModel) -> Seq<char> {
    "> ran "@ + escaped("`"@ + name + "` "@ + agent::summarized(input)) + "\n"@
}

/// The tool calls among the blocks, in the export.
pub open spec fn md_calls(bs: Seq<ContentModel>) -> Seq<char>
    decreases bs.len(),
{
    if bs.len() == 0 {
        Seq::empty()
    } else {
        match bs.last() {
            ContentModel::ToolCall { name, input, .. } => md_calls(bs.drop_last()) + md_call(
                name,
                input,
            ),
            _ => md_calls(bs.drop_last()),
        }
    }
}

/// What the assistant said, in the export.
pub open spec fn md_text(said: Seq<char>) -> Seq<char> {
    if text::trim(said).len() == 0 {
        Seq::empty()
    } else {
        text::trim(prose::neutral(text::trim(said))) + "\n\n"@
    }
}

/// The error of an assistant turn, in the export.
pub open spec fn md_error(error: Option<Seq<char>>) -> Seq<char> {
    match error {
        Some(e) => "> **error:** "@ + escaped(e) + "\n"@,
        None => Seq::empty(),
    }
}

/// `s` with a line feed behind it, unless it ends with a blank line.
pub open spec fn ended(s: Seq<char>) -> Seq<char> {
    if s.len() >= 2 && s[s.len() - 1] == '\n' && s[s.len() - 2] == '\n' {
        s
    } else {
        s.push('\n')
    }
}

/// The output of a tool as it stands in its block: a fence in it would end the
/// block early, so backticks that make one are kept apart.
pub open spec fn fenced(content: Seq<char>) -> Seq<char> {
    text::trim_end(text::replace(content, seq!['`', '`', '`'], apart()))
}

/// Three backticks with a zero-width space before each.
pub open spec fn apart() -> Seq<char> {
    seq!['\u{200b}', '`', '\u{200b}', '`', '\u{200b}', '`']
}

/// One message in the export.
pub open spec fn md_message(m: MessageModel) -> Seq<char> {
    match m {
        MessageModel::User { content } => "## You\n\n"@ + text::trim(content) + "\n\n"@,
        MessageModel::Assistant { content, error, .. } => {
            let said = openai::joined_text(content);
            if text::trim(said).len() == 0 && agent::calls_among(content).len() == 0 && error
                is None {
                Seq::empty()
            } else {
                ended("## Assistant\n\n"@ + md_text(said) + md_calls(content) + md_error(error))
            }
        },
        MessageModel::ToolResult { tool_name, content, is_error, .. } => "<details><summary>"@ + (
        if is_error {
            "error from"@
        } else {
            "output of"@
        }) + " "@ + escaped(tool_name) + "</summary>\n\n```\n"@ + fenced(content)
            + "\n```\n\n</details>\n\n"@,
    }
}

/// The messages in the export.
pub open spec fn md_messages(ms: Seq<MessageModel>) -> Seq<char>
    decreases ms.len(),
{
    if ms.len() == 0 {
        Seq::empty()
    } else {
        md_messages(ms.drop_last()) + md_message(ms.last())
    }
}

/// A conversation as a Markdown document.
pub open spec fn markdown(title: Seq<char>, ms: Seq<MessageModel>) -> Seq<char> {
    "# "@ + escaped(title) + "\n\n"@ + md_messages(ms)
}

fn md_calls_of(content: &Vec<ContentBlock>) -> (r: (String, usize))
    ensures
        r.0@ == md_calls(types::contents(content@)),
        r.1 == agent::calls_among(types::contents(content@)).len(),
{
    let ghost all = types::contents(content@);
    let mut out = String::new();
    let mut n: usize = 0;
    let mut i: usize = 0;
    assert(all.take(0) =~= Seq::empty());
    while i < content.len()
        invariant
            i <= content@.len(),
            n <= i,
            all == types::contents(content@),
            out@ == md_calls(all.take(i as int)),
            n == agent::calls_among(all.take(i as int)).len(),
        decreases content@.len() - i,
    {
        assert(all.take(i + 1).drop_last() =~= all.take(i as int));
        assert(all.take(i + 1).last() == content@[i as int]@);
        if let ContentBlock::ToolCall { name, input, .. } = &content[i] {
            let mut call = "`".to_owned();
            call.push_str(name.as_str());
            call.push_str("` ");
            let summary = agent::summarize_input(input);
            call.push_str(summary.as_str());
            let mut line = "> ran ".to_owned();
            let inert = escape_inline(call.as_str());
            line.push_str(inert.as_str());
            line.push_str("\n");
            out.push_str(line.as_str());
            n += 1;
        }
        i += 1;
    }
    assert(all.take(i as int) =~= all);
    (out, n)
}

fn said_in(content: &Vec<ContentBlock>) -> (r: String)
    ensures
        r@ == openai::joined_text(types::contents(content@)),
{
    let (said, calls) = text_and_calls(content);
    said
}

fn fence_output(content: &str) -> (r: String)
    ensures
        r@ == fenced(content@),
{
    proof {
        reveal_strlit("```");
        reveal_strlit("\u{200b}`\u{200b}`\u{200b}`");
        assert("```"@ =~= seq!['`', '`', '`']);
        assert("\u{200b}`\u{200b}`\u{200b}`"@ =~= apart());
    }
    let kept = text::str_replace(content, "```", "\u{200b}`\u{200b}`\u{200b}`");
    text::trimmed_end(kept.as_str())
}

fn ends_with_blank_line(s: &str) -> (r: bool)
    ensures
        r == (s@.len() >= 2 && s@[s@.len() - 1] == '\n' && s@[s@.len() - 2] == '\n'),
{
    let cs = text::chars_of(s);
    cs.len() >= 2 && cs[cs.len() - 1] == '\n' && cs[cs.len() - 2] == '\n'
}

fn message_markdown(m: &Message) -> (r: String)
    ensures
        r@ == md_message(m@),
{
    match m {
        Message::User { content } => {
            let mut out = "## You\n\n".to_owned();
            let t = text::trimmed(content.as_str());
            out.push_str(t.as_str());
            out.push_str("\n\n");
            out
        },
        Message::Assistant { content, error, .. } => {
            let said = said_in(content);
            let (calls, n) = md_calls_of(content);
            let t = text::trimmed(said.as_str());
            if t.as_str().is_empty() && n == 0 && error.is_none() {
                let none = String::new();
                assert(none@ =~= Seq::empty());
                return none;
            }
            let mut out = "## Assistant\n\n".to_owned();
            let mut prose = String::new();
            if !t.as_str().is_empty() {
                let neutral = prose::neutralize_prose_html(t.as_str());
                prose = text::trimmed(neutral.as_str());
                prose.push_str("\n\n");
            } else {
                assert(prose@ =~= Seq::empty());
            }
            out.push_str(prose.as_str());
            out.push_str(calls.as_str());
            let mut failed = String::new();
            if let Some(e) = error {
                failed = "> **error:** ".to_owned();
                let inert = escape_inline(e.as_str());
                failed.push_str(inert.as_str());
                failed.push_str("\n");
            } else {
                assert(failed@ =~= Seq::empty());
            }
            out.push_str(failed.as_str());
            if !ends_with_blank_line(out.as_str()) {
                out.push('\n');
            }
            out
        },
        Message::ToolResult { tool_name, content, is_error, .. } => {
            let mut out = "<details><summary>".to_owned();
            if *is_error {
                out.push_str("error from");
            } else {
                out.push_str("output of");
            }
            out.push_str(" ");
            let name = escape_inline(tool_name.as_str());
            out.push_str(name.as_str());
            out.push_str("</summary>\n\n```\n");
            let body = fence_output(content.as_str());
            out.push_str(body.as_str());
            out.push_str("\n```\n\n</details>\n\n");
            out
        },
    }
}

/// A conversation as a Markdown document. Code survives as it is, which is why one
/// exports at all; tags in the assistant's prose, in titles, in names and in errors
/// are made inert, since the text may have come from anywhere. What the user said
/// stands as it was said.
pub fn to_markdown(title: &str, messages: &[Message]) -> (r: String)
    ensures
        r@ == markdown(title@, types::messages(messages@)),
{
    let ghost all = types::messages(messages@);
    let mut out = "# ".to_owned();
    let t = escape_inline(title);
    out.push_str(t.as_str());
    out.push_str("\n\n");
    let ghost head = out@;
    let mut i: usize = 0;
    assert(all.take(0) =~= Seq::empty());
    assert(head + Seq::<char>::empty() =~= head);
    while i < messages.len()
        invariant
            i <= messages@.len(),
            all == types::messages(messages@),
            out@ == head + md_messages(all.take(i as int)),
        decreases messages@.len() - i,
    {
        assert(all.take(i + 1).drop_last() =~= all.take(i as int));
        assert(all.take(i + 1).last() == messages@[i as int]@);
        let ghost so_far = md_messages(all.take(i as int));
        let one = message_markdown(&messages[i]);
        out.push_str(one.as_str());
        assert(head + so_far + one@ =~= head + (so_far + one@));
        i += 1;
    }
    assert(all.take(i as int) =~= all);
    out
}

/// Tool output cannot break out of its block: every three backticks that are left
/// in it stand right behind a zero-width space, so never at the start of a line.
pub proof fn law_output_stays_in_its_fence(content: Seq<char>, i: int)
    requires
        text::occurs_at(fenced(content), seq!['`', '`', '`'], i),
    ensures
        i > 0,
        fenced(content)[i - 1] == '\u{200b}',
{
    let ticks = seq!['`', '`', '`'];
    let whole = text::replace(content, ticks, apart());
    lemma_fences_are_apart(content, 0);
    lemma_trim_end_is_prefix(whole);
    let cut = fenced(content);
    assert(whole.subrange(i, i + 3) =~= cut.subrange(i, i + 3));
    assert(text::occurs_at(whole, ticks, i));
    assert(whole[i - 1] == cut[i - 1]);
}

/// The part of a tool-result page before the output, with the fence that opens its
/// block.
pub open spec fn page_head(title: Seq<char>, tool_name: Seq<char>, is_error: bool) -> Seq<char> {
    "# "@ + escaped(title) + "\n\n"@ + "<details><summary>"@ + (if is_error {
        "error from"@
    } else {
        "output of"@
    }) + " "@ + escaped(tool_name) + "</summary>\n\n```\n"@
}

proof fn lemma_escaped_adds_no_tick(s: Seq<char>)
    requires
        !s.contains('`'),
    ensures
        !escaped(s).contains('`'),
{
    reveal_strlit("&");
    reveal_strlit("<");
    reveal_strlit(">");
    reveal_strlit("&amp;");
    reveal_strlit("&lt;");
    reveal_strlit("&gt;");
    let a = text::replace(s, "&"@, "&amp;"@);
    let b = text::replace(a, "<"@, "&lt;"@);
    text::lemma_replace_adds_no(s, "&"@, "&amp;"@, '`', 0);
    text::lemma_replace_adds_no(a, "<"@, "&lt;"@, '`', 0);
    text::lemma_replace_adds_no(b, ">"@, "&gt;"@, '`', 0);
}

proof fn lemma_page_head(title: Seq<char>, tool_name: Seq<char>, is_error: bool)
    requires
        !title.contains('`'),
        !tool_name.contains('`'),
    ensures
        ({
            let head = page_head(title, tool_name, is_error);
            let n = head.len() as int;
            &&& n >= 5
            &&& head[n - 1] == '\n' && head[n - 5] == '\n'
            &&& head[n - 2] == '`' && head[n - 3] == '`' && head[n - 4] == '`'
            &&& forall|k: int| 0 <= k < n - 4 ==> head[k] != '`'
        }),
{
    reveal_strlit("# ");
    reveal_strlit("\n\n");
    reveal_strlit("<details><summary>");
    reveal_strlit("error from");
    reveal_strlit("output of");
    reveal_strlit(" ");
    reveal_strlit("</summary>\n\n```\n");
    lemma_escaped_adds_no_tick(title);
    lemma_escaped_adds_no_tick(tool_name);
    let says = if is_error {
        "error from"@
    } else {
        "output of"@
    };
    let t = escaped(title);
    let m = escaped(tool_name);
    let h1 = "# "@ + t;
    assert forall|k: int| 0 <= k < h1.len() implies h1[k] != '`' by {
        if k >= 2 {
            assert(t.contains(t[k - 2]));
        }
    }
    let h2 = h1 + "\n\n"@ + "<details><summary>"@;
    assert forall|k: int| 0 <= k < h2.len() implies h2[k] != '`' by {
        if k < h1.len() {
            assert(h2[k] == h1[k]);
        }
    }
    let h3 = h2 + says + " "@;
    assert forall|k: int| 0 <= k < h3.len() implies h3[k] != '`' by {
        if k < h2.len() {
            assert(h3[k] == h2[k]);
        }
    }
    let h4 = h3 + m;
    assert forall|k: int| 0 <= k < h4.len() implies h4[k] != '`' by {
        if k < h3.len() {
            assert(h4[k] == h3[k]);
        } else {
            assert(m.contains(m[k - h3.len()]));
        }
    }
    let head = page_head(title, tool_name, is_error);
    assert(head == h4 + "</summary>\n\n```\n"@);
    assert forall|k: int| 0 <= k < head.len() - 4 implies head[k] != '`' by {
        if k < h4.len() {
            assert(head[k] == h4[k]);
        }
    }
}

/// The page of a tool result has the two fences of its block and no other, whatever
/// the output holds: the output cannot end its block, nor open another.
pub proof fn law_page_has_two_fences(title: Seq<char>, m: MessageModel)
    requires
        m is ToolResult,
        !title.contains('`'),
        !m->ToolResult_tool_name.contains('`'),
    ensures
        ({
            let head = page_head(title, m->ToolResult_tool_name, m->ToolResult_is_error);
            let start = head.len() - 4;
            let end = head.len() + fenced(m->ToolResult_content).len() + 1;
            let page = markdown(title, seq![m]);
            forall|p: int| #[trigger] fence_at(page, p) <==> p == start || p == end
        }),
{
    let name = m->ToolResult_tool_name;
    let head = page_head(title, name, m->ToolResult_is_error);
    let body = fenced(m->ToolResult_content);
    lemma_page_head(title, name, m->ToolResult_is_error);
    let marks = seq!['`', '`', '`'];
    assert forall|j: int| #[trigger] text::occurs_at(body, marks, j) implies j > 0 && body[j - 1]
        != '\n' by {
        law_output_stays_in_its_fence(m->ToolResult_content, j);
    }
    lemma_two_fences(head, body, marks);
    lemma_page(title, m);
}

proof fn lemma_page(title: Seq<char>, m: MessageModel)
    requires
        m is ToolResult,
    ensures
        markdown(title, seq![m]) == page_head(
            title,
            m->ToolResult_tool_name,
            m->ToolResult_is_error,
        ) + fenced(m->ToolResult_content) + "\n```\n\n</details>\n\n"@,
{
    assert(seq![m].drop_last() =~= Seq::empty());
    assert(md_messages(seq![m]) =~= md_message(m)) by {
        reveal_with_fuel(md_messages, 2);
    }
    let says = if m->ToolResult_is_error {
        "error from"@
    } else {
        "output of"@
    };
    let front = "# "@ + escaped(title) + "\n\n"@;
    lemma_added_behind(
        front,
        "<details><summary>"@,
        says,
        " "@,
        escaped(m->ToolResult_tool_name),
        "</summary>\n\n```\n"@,
        fenced(m->ToolResult_content),
        "\n```\n\n</details>\n\n"@,
    );
}

proof fn lemma_added_behind(
    front: Seq<char>,
    a: Seq<char>,
    b: Seq<char>,
    c: Seq<char>,
    d: Seq<char>,
    e: Seq<char>,
    f: Seq<char>,
    g: Seq<char>,
)
    ensures
        front + (a + b + c + d + e + f + g) == front + a + b + c + d + e + f + g,
{
    assert(front + (a + b) =~= front + a + b);
    assert(front + (a + b + c) =~= front + (a + b) + c);
    assert(front + (a + b + c + d) =~= front + (a + b + c) + d);
    assert(front + (a + b + c + d + e) =~= front + (a + b + c + d) + e);
    assert(front + (a + b + c + d + e + f) =~= front + (a + b + c + d + e) + f);
    assert(front + (a + b + c + d + e + f + g) =~= front + (a + b + c + d + e + f) + g);
}

proof fn lemma_two_fences(head: Seq<char>, body: Seq<char>, marks: Seq<char>)
    requires
        marks == seq!['`', '`', '`'],
        head.len() >= 5,
        head[head.len() - 1] == '\n' && head[head.len() - 5] == '\n',
        head[head.len() - 2] == '`' && head[head.len() - 3] == '`' && head[head.len() - 4] == '`',
        forall|k: int| 0 <= k < head.len() - 4 ==> head[k] != '`',
        forall|j: int| #[trigger]
            text::occurs_at(body, marks, j) ==> j > 0 && body[j - 1] != '\n',
    ensures
        ({
            let page = head + body + "\n```\n\n</details>\n\n"@;
            let start = head.len() - 4;
            let end = head.len() + body.len() + 1;
            forall|p: int| #[trigger] fence_at(page, p) <==> p == start || p == end
        }),
{
    reveal_strlit("\n```\n\n</details>\n\n");
    let tail = "\n```\n\n</details>\n\n"@;
    let page = head + body + tail;
    let n = head.len() as int;
    let e = n + body.len();
    assert(page.subrange(n - 4, n - 1) =~= marks);
    assert(page.subrange(e + 1, e + 4) =~= marks);
    assert(page[n - 5] == '\n' && page[e] == '\n');
    assert(fence_at(page, n - 4) && fence_at(page, e + 1));
    assert forall|p: int| #[trigger] fence_at(page, p) implies p == n - 4 || p == e + 1 by {
        assert(page.subrange(p, p + 3)[0] == page[p]);
        assert(page.subrange(p, p + 3)[1] == page[p + 1]);
        assert(page.subrange(p, p + 3)[2] == page[p + 2]);
        if p + 2 < n {
            assert(page[p] == head[p] && page[p + 2] == head[p + 2]);
        } else if p < n {
            assert(page[n - 1] == head[n - 1]);
        } else if p + 2 < e {
            assert(body.subrange(p - n, p - n + 3) =~= page.subrange(p, p + 3));
            assert(text::occurs_at(body, marks, p - n));
            assert(page[p - 1] == body[p - n - 1]);
        } else if p < e + 1 {
        } else {
            assert(page[p] == tail[p - e] && page[p + 1] == tail[p + 1 - e] && page[p + 2] == tail[p
                + 2 - e]);
        }
    }
}

/// How many backticks stand in a row right before `i`.
pub open spec fn ticks_before(s: Seq<char>, i: int) -> int
    decreases i,
{
    if 0 < i <= s.len() && s[i - 1] == '`' {
        1 + ticks_before(s, i - 1)
    } else {
        0
    }
}

/// A run of five, eight, eleven and so on backticks, two more than threes make.
pub open spec fn has_two_over(s: Seq<char>) -> bool {
    exists|e: int|
        0 <= e <= s.len() && (e == s.len() || s[e] != '`') && #[trigger] ticks_before(s, e) >= 5
            && ticks_before(s, e) % 3 == 2
}

proof fn lemma_ticks_before(s: Seq<char>, i: int)
    requires
        0 <= i <= s.len(),
    ensures
        0 <= ticks_before(s, i) <= i,
    decreases i,
{
    if 0 < i && s[i - 1] == '`' {
        lemma_ticks_before(s, i - 1);
    }
}

proof fn lemma_no_three_are_left(s: Seq<char>, from: int, marks: Seq<char>)
    requires
        0 <= from <= s.len(),
        marks == seq!['`', '`', '`'],
        ticks_before(s, from) % 3 == 0,
        !has_two_over(s),
    ensures
        forall|j: int|
            !#[trigger] text::occurs_at(text::replace_from(s, marks, apart(), from), marks, j),
    decreases s.len() - from,
{
    let out = text::replace_from(s, marks, apart(), from);
    text::lemma_find_from(s, marks, from);
    match text::find_from(s, marks, from) {
        Some(i) => {
            assert(s.subrange(i, i + 3)[0] == s[i] && s.subrange(i, i + 3)[1] == s[i + 1]
                && s.subrange(i, i + 3)[2] == s[i + 2]);
            if i > from && s[i - 1] == '`' {
                assert(s.subrange(i - 1, i + 2) =~= marks);
                assert(text::occurs_at(s, marks, i - 1));
            }
            lemma_ticks_before(s, i);
            reveal_with_fuel(ticks_before, 6);
            assert(ticks_before(s, i) % 3 == 0);
            assert(ticks_before(s, i + 3) == ticks_before(s, i) + 3);
            lemma_no_three_are_left(s, i + 3, marks);
            let head = s.subrange(from, i);
            let rest = text::replace_from(s, marks, apart(), i + 3);
            let n = head.len() as int;
            assert(out == head + apart() + rest);
            lemma_two_over(s, i, marks);
            assert forall|j: int| !#[trigger] text::occurs_at(out, marks, j) by {
                if text::occurs_at(out, marks, j) {
                    assert(out.subrange(j, j + 3)[0] == out[j] && out.subrange(j, j + 3)[1] == out[j
                        + 1] && out.subrange(j, j + 3)[2] == out[j + 2]);
                    assert(out[n] == '\u{200b}' && out[n + 2] == '\u{200b}' && out[n + 4]
                        == '\u{200b}');
                    if j + 2 < n {
                        assert(s.subrange(from + j, from + j + 3) =~= out.subrange(j, j + 3));
                        assert(text::occurs_at(s, marks, from + j));
                    } else if j < n + 5 {
                        assert(false);
                    } else if j == n + 5 {
                        assert(out[j + 1] == rest[0] && out[j + 2] == rest[1]);
                    } else {
                        let k = j - n - 6;
                        assert(rest.subrange(k, k + 3) =~= out.subrange(j, j + 3));
                        assert(text::occurs_at(rest, marks, k));
                    }
                }
            }
        },
        None => {
            assert(out == s.skip(from));
            assert forall|j: int| !#[trigger] text::occurs_at(out, marks, j) by {
                if text::occurs_at(out, marks, j) {
                    assert(s.subrange(from + j, from + j + 3) =~= out.subrange(j, j + 3));
                    assert(text::occurs_at(s, marks, from + j));
                }
            }
        },
    }
}

/// What follows three backticks that were taken apart does not start with two.
proof fn lemma_two_over(s: Seq<char>, i: int, marks: Seq<char>)
    requires
        0 <= i,
        marks == seq!['`', '`', '`'],
        text::occurs_at(s, marks, i),
        ticks_before(s, i) % 3 == 0,
        !has_two_over(s),
    ensures
        ({
            let rest = text::replace_from(s, marks, apart(), i + 3);
            !(rest.len() >= 2 && rest[0] == '`' && rest[1] == '`')
        }),
{
    let rest = text::replace_from(s, marks, apart(), i + 3);
    assert(s.subrange(i, i + 3)[0] == s[i] && s.subrange(i, i + 3)[1] == s[i + 1] && s.subrange(
        i,
        i + 3,
    )[2] == s[i + 2]);
    text::lemma_find_from(s, marks, i + 3);
    lemma_ticks_before(s, i);
    reveal_with_fuel(ticks_before, 6);
    if rest.len() >= 2 && rest[0] == '`' && rest[1] == '`' {
        match text::find_from(s, marks, i + 3) {
            Some(k) => {
                let head = s.subrange(i + 3, k);
                assert(rest[head.len() as int] == '\u{200b}');
                assert(rest[0] == s[i + 3] && rest[1] == s[i + 4]);
            },
            None => {
                assert(rest == s.skip(i + 3));
            },
        }
        if i + 5 < s.len() && s[i + 5] == '`' {
            assert(s.subrange(i + 3, i + 6) =~= marks);
            assert(text::occurs_at(s, marks, i + 3));
        }
        assert(ticks_before(s, i + 5) == ticks_before(s, i) + 5);
    }
}

proof fn lemma_count_two(s: Seq<char>, needle: Seq<char>, a: int, b: int)
    requires
        needle.len() > 0,
        a + needle.len() <= b,
        forall|p: int| #[trigger] text::occurs_at(s, needle, p) <==> p == a || p == b,
    ensures
        text::count(s, needle) == 2,
{
    reveal_with_fuel(text::count_from, 4);
    assert(text::occurs_at(s, needle, a) && text::occurs_at(s, needle, b));
    text::lemma_find_from(s, needle, 0);
    text::lemma_find_from(s, needle, a + needle.len());
    text::lemma_find_from(s, needle, b + needle.len());
    assert(text::find_from(s, needle, 0) == Some(a));
    assert(text::find_from(s, needle, a + needle.len()) == Some(b));
    assert(text::find_from(s, needle, b + needle.len()) is None);
}

/// The page of a tool result holds three backticks in a row exactly twice: where its
/// block opens and where it closes. Left out is an output with a run of backticks
/// that is two longer than threes make, whose last three stay together behind a
/// zero-width space.
pub proof fn law_page_has_two_marks(title: Seq<char>, m: MessageModel)
    requires
        m is ToolResult,
        !title.contains('`'),
        !m->ToolResult_tool_name.contains('`'),
        !has_two_over(m->ToolResult_content),
    ensures
        text::count(markdown(title, seq![m]), seq!['`', '`', '`']) == 2,
{
    let name = m->ToolResult_tool_name;
    let content = m->ToolResult_content;
    let head = page_head(title, name, m->ToolResult_is_error);
    let body = fenced(content);
    let marks = seq!['`', '`', '`'];
    let whole = text::replace(content, marks, apart());
    lemma_page_head(title, name, m->ToolResult_is_error);
    lemma_no_three_are_left(content, 0, marks);
    lemma_trim_end_is_prefix(whole);
    assert forall|j: int| !#[trigger] text::occurs_at(body, marks, j) by {
        if text::occurs_at(body, marks, j) {
            assert(whole.subrange(j, j + 3) =~= body.subrange(j, j + 3));
            assert(text::occurs_at(whole, marks, j));
        }
    }
    lemma_page(title, m);
    lemma_two_marks(head, body, marks);
    let page = markdown(title, seq![m]);
    let end = head.len() + body.len() + 1;
    lemma_count_two(page, marks, head.len() - 4, end as int);
}

proof fn lemma_two_marks(head: Seq<char>, body: Seq<char>, marks: Seq<char>)
    requires
        marks == seq!['`', '`', '`'],
        head.len() >= 5,
        head[head.len() - 1] == '\n',
        head[head.len() - 2] == '`' && head[head.len() - 3] == '`' && head[head.len() - 4] == '`',
        forall|k: int| 0 <= k < head.len() - 4 ==> head[k] != '`',
        forall|j: int| !#[trigger] text::occurs_at(body, marks, j),
    ensures
        ({
            let page = head + body + "\n```\n\n</details>\n\n"@;
            let start = head.len() - 4;
            let end = head.len() + body.len() + 1;
            forall|p: int| #[trigger] text::occurs_at(page, marks, p) <==> p == start || p == end
        }),
{
    reveal_strlit("\n```\n\n</details>\n\n");
    let tail = "\n```\n\n</details>\n\n"@;
    let page = head + body + tail;
    let n = head.len() as int;
    let e = n + body.len();
    assert(page.subrange(n - 4, n - 1) =~= marks);
    assert(page.subrange(e + 1, e + 4) =~= marks);
    assert(page[e] == '\n');
    assert(text::occurs_at(page, marks, n - 4) && text::occurs_at(page, marks, e + 1));
    assert forall|p: int| #[trigger] text::occurs_at(page, marks, p) implies p == n - 4 || p == e
        + 1 by {
        assert(page.subrange(p, p + 3)[0] == page[p]);
        assert(page.subrange(p, p + 3)[1] == page[p + 1]);
        assert(page.subrange(p, p + 3)[2] == page[p + 2]);
        if p + 2 < n {
            assert(page[p] == head[p] && page[p + 2] == head[p + 2]);
        } else if p < n {
            assert(page[n - 1] == head[n - 1]);
        } else if p + 2 < e {
            assert(body.subrange(p - n, p - n + 3) =~= page.subrange(p, p + 3));
            assert(text::occurs_at(body, marks, p - n));
        } else if p < e + 1 {
        } else {
            assert(page[p] == tail[p - e] && page[p + 1] == tail[p + 1 - e] && page[p + 2] == tail[p
                + 2 - e]);
        }
    }
}

proof fn lemma_trim_end_is_prefix(s: Seq<char>)
    ensures
        text::trim_end(s).len() <= s.len(),
        text::trim_end(s) == s.take(text::trim_end(s).len() as int),
    decreases s.len(),
{
    if s.len() > 0 && text::is_space(s.last()) {
        lemma_trim_end_is_prefix(s.drop_last());
        let n = text::trim_end(s).len() as int;
        assert(s.drop_last().take(n) =~= s.take(n));
    } else {
        assert(s.take(s.len() as int) =~= s);
    }
}

proof fn lemma_fences_are_apart(s: Seq<char>, from: int)
    requires
        0 <= from <= s.len(),
    ensures
        ({
            let ticks = seq!['`', '`', '`'];
            let out = text::replace_from(s, ticks, apart(), from);
            forall|j: int|
                #[trigger] text::occurs_at(out, ticks, j) ==> j > 0 && out[j - 1] == '\u{200b}'
        }),
    decreases s.len() - from,
{
    let ticks = seq!['`', '`', '`'];
    let out = text::replace_from(s, ticks, apart(), from);
    text::lemma_find_from(s, ticks, from);
    match text::find_from(s, ticks, from) {
        Some(i) => {
            lemma_fences_are_apart(s, i + 3);
            let head = s.subrange(from, i);
            let rest = text::replace_from(s, ticks, apart(), i + 3);
            let n = head.len() as int;
            assert(out == head + apart() + rest);
            assert forall|j: int| #[trigger] text::occurs_at(out, ticks, j) implies j > 0 && out[j
                - 1] == '\u{200b}' by {
                assert(out.subrange(j, j + 3)[0] == out[j] && out.subrange(j, j + 3)[1] == out[j
                    + 1] && out.subrange(j, j + 3)[2] == out[j + 2]);
                assert(out[j] == '`' && out[j + 1] == '`' && out[j + 2] == '`');
                assert(out[n] == '\u{200b}' && out[n + 2] == '\u{200b}' && out[n + 4]
                    == '\u{200b}');
                if j + 2 < n {
                    assert(head.subrange(j, j + 3) =~= s.subrange(from + j, from + j + 3));
                    assert(s.subrange(from + j, from + j + 3) =~= out.subrange(j, j + 3));
                    assert(text::occurs_at(s, ticks, from + j));
                } else if j < n + 5 {
                    assert(false);
                } else if j == n + 5 {
                } else {
                    let k = j - n - 6;
                    assert(rest.subrange(k, k + 3) =~= out.subrange(j, j + 3));
                    assert(text::occurs_at(rest, ticks, k));
                }
            }
        },
        None => {
            assert(out == s.skip(from));
            assert forall|j: int| #[trigger] text::occurs_at(out, ticks, j) implies j > 0 && out[j
                - 1] == '\u{200b}' by {
                assert(s.subrange(from + j, from + j + 3) =~= out.subrange(j, j + 3));
                assert(text::occurs_at(s, ticks, from + j));
            }
        },
    }
}

/// A character of a title as it stands in a file name.
pub open spec fn name_char(c: char) -> char {
    if text::alphanumeric(c) || c == '-' || c == '_' {
        c
    } else {
        '-'
    }
}

/// A title with everything else made dashes.
pub open spec fn dashed(title: Seq<char>) -> Seq<char> {
    Seq::new(title.len(), |i: int| name_char(title[i]))
}

/// `s` without the dashes it starts with.
pub open spec fn trim_dashes_start(s: Seq<char>) -> Seq<char>
    decreases s.len(),
{
    if s.len() > 0 && s[0] == '-' {
        trim_dashes_start(s.skip(1))
    } else {
        s
    }
}

/// `s` without the dashes it ends with.
pub open spec fn trim_dashes_end(s: Seq<char>) -> Seq<char>
    decreases s.len(),
{
    if s.len() > 0 && s.last() == '-' {
        trim_dashes_end(s.drop_last())
    } else {
        s
    }
}

/// A title with everything but letters, digits, `-` and `_` made dashes, and none
/// of these at the ends.
pub open spec fn stem(title: Seq<char>) -> Seq<char> {
    trim_dashes_end(trim_dashes_start(dashed(title)))
}

/// The file name for a stem in lower case.
pub open spec fn filename(lowered: Seq<char>) -> Seq<char> {
    let cut = text::prefix(lowered, 60);
    if cut.len() == 0 {
        "conversation.md"@
    } else {
        cut + ".md"@
    }
}

/// A letter, a digit, `-` or `_`.
pub open spec fn is_stem_char(c: char) -> bool {
    'a' <= c <= 'z' || 'A' <= c <= 'Z' || '0' <= c <= '9' || c == '-' || c == '_'
}

/// What the file name of an ASCII title is made of: no separator survives.
pub open spec fn is_name_char(c: char) -> bool {
    'a' <= c <= 'z' || '0' <= c <= '9' || c == '-' || c == '_' || c == '.'
}

fn stem_of(title: &str) -> (r: String)
    ensures
        r@ == stem(title@),
        text::is_ascii(title@) ==> forall|i: int|
            0 <= i < r@.len() ==> is_stem_char(#[trigger] r@[i]),
{
    let cs = text::chars_of(title);
    let mut kept: Vec<char> = Vec::new();
    let mut i: usize = 0;
    while i < cs.len()
        invariant
            i <= cs@.len(),
            kept@.len() == i,
            forall|j: int| 0 <= j < i ==> (#[trigger] kept@[j]) == name_char(cs@[j]),
            cs@ == title@,
            text::is_ascii(title@) ==> forall|j: int|
                0 <= j < i ==> is_stem_char(#[trigger] kept@[j]),
        decreases cs@.len() - i,
    {
        let c = cs[i];
        assert(text::is_ascii(title@) ==> (title@[i as int] as u32) < 0x80);
        let k = if text::is_alphanumeric(c) || c == '-' || c == '_' {
            c
        } else {
            '-'
        };
        kept.push(k);
        i += 1;
    }
    assert(kept@ =~= dashed(title@));
    let mut a: usize = 0;
    assert(kept@.skip(0) =~= kept@);
    while a < kept.len() && kept[a] == '-'
        invariant
            a <= kept@.len(),
            trim_dashes_start(kept@) == trim_dashes_start(kept@.skip(a as int)),
        decreases kept@.len() - a,
    {
        assert(kept@.skip(a as int).skip(1) =~= kept@.skip(a + 1));
        a += 1;
    }
    let ghost t = kept@.skip(a as int);
    let mut b: usize = kept.len();
    assert(kept@.subrange(a as int, b as int) =~= t);
    while b > a && kept[b - 1] == '-'
        invariant
            a <= b <= kept@.len(),
            t == kept@.skip(a as int),
            trim_dashes_end(t) == trim_dashes_end(kept@.subrange(a as int, b as int)),
        decreases b,
    {
        assert(kept@.subrange(a as int, b as int).drop_last() =~= kept@.subrange(a as int, b - 1));
        b -= 1;
    }
    text::slice_of(kept.as_slice(), a, b)
}

/// The file name for a stem in lower case.
pub fn filename_for(lowered: &str) -> (r: String)
    ensures
        r@ == filename(lowered@),
{
    let mut cut = text::take_chars(lowered, 60);
    if cut.as_str().is_empty() {
        return "conversation.md".to_owned();
    }
    cut.push_str(".md");
    cut
}

/// A file name made from the title of a conversation: safe on any file system, and
/// bounded.
pub fn export_filename(title: &str) -> (r: String)
    ensures
        r@ == filename(text::lowercase(stem(title@))),
        text::is_ascii(stem(title@)) ==> r@ == filename(text::ascii_lowered(stem(title@))),
        r@.len() <= 63,
        text::is_ascii(title@) ==> forall|i: int|
            0 <= i < r@.len() ==> is_name_char(#[trigger] r@[i]),
{
    let s = stem_of(title);
    let low = text::to_lowercase(s.as_str());
    proof {
        reveal_strlit("conversation.md");
        reveal_strlit(".md");
    }
    let r = filename_for(low.as_str());
    proof {
        if text::is_ascii(title@) {
            assert forall|i: int| 0 <= i < s@.len() implies (#[trigger] s@[i] as u32) < 0x80 by {
                assert(is_stem_char(s@[i]));
            }
            assert(text::is_ascii(s@));
            let cut = text::prefix(low@, 60);
            assert forall|i: int| 0 <= i < r@.len() implies is_name_char(#[trigger] r@[i]) by {
                if cut.len() > 0 && i < cut.len() {
                    assert(r@[i] == low@[i]);
                    assert(low@[i] == text::ascii_lower(s@[i]));
                    assert(is_stem_char(s@[i]));
                }
            }
        }
    }
    r
}

proof fn lemma_md_calls(content: Seq<ContentModel>)
    ensures
        md_calls(content) == content.filter(|b: ContentModel| b is ToolCall).flat_map(
            |b: ContentModel|
                match b {
                    ContentModel::ToolCall { name, input, .. } => "> ran "@ + escaped(
                        "`"@ + name + "` "@ + agent::summarized(input),
                    ) + "\n"@,
                    _ => Seq::<char>::empty(),
                },
        ),
    decreases content.len(),
{
    let f = |b: ContentModel|
        match b {
            ContentModel::ToolCall { name, input, .. } => "> ran "@ + escaped(
                "`"@ + name + "` "@ + agent::summarized(input),
            ) + "\n"@,
            _ => Seq::<char>::empty(),
        };
    reveal(Seq::filter);
    let calls = content.filter(|b: ContentModel| b is ToolCall);
    if content.len() > 0 {
        lemma_md_calls(content.drop_last());
        let before = content.drop_last().filter(|b: ContentModel| b is ToolCall);
        if content.last() is ToolCall {
            assert(calls.drop_last() =~= before);
            text::lemma_flat_map_last(calls, f);
        }
    } else {
        assert(calls.map_values(f) =~= Seq::empty());
    }
}

/// An answer is exported whole: its text, then every tool call that it makes, in
/// order, then its error, whatever of these it has. Nothing is left out but an answer
/// that has none of them, and what follows it is set apart by an empty line.
pub proof fn law_answer_is_exported_whole(m: MessageModel)
    requires
        m is Assistant,
    ensures
        ({
            let content = m->Assistant_content;
            let said = text::trim(
                content.flat_map(
                    |b: ContentModel|
                        match b {
                            ContentModel::Text { text } => text,
                            _ => Seq::<char>::empty(),
                        },
                ),
            );
            let calls = content.filter(|b: ContentModel| b is ToolCall);
            let ran = calls.flat_map(
                |b: ContentModel|
                    match b {
                        ContentModel::ToolCall { name, input, .. } => "> ran "@ + escaped(
                            "`"@ + name + "` "@ + agent::summarized(input),
                        ) + "\n"@,
                        _ => Seq::<char>::empty(),
                    },
            );
            let failed = match m->Assistant_error {
                Some(e) => "> **error:** "@ + escaped(e) + "\n"@,
                None => Seq::<char>::empty(),
            };
            let whole = "## Assistant\n\n"@ + (if said.len() > 0 {
                text::trim(prose::neutral(said)) + "\n\n"@
            } else {
                Seq::<char>::empty()
            }) + ran + failed;
            if said.len() == 0 && calls.len() == 0 && m->Assistant_error is None {
                md_message(m) == Seq::<char>::empty()
            } else {
                &&& md_message(m) == whole || md_message(m) == whole.push('\n')
                &&& md_message(m).len() >= 2
                &&& md_message(m).last() == '\n'
                &&& md_message(m)[md_message(m).len() - 2] == '\n'
            }
        }),
{
    let content = m->Assistant_content;
    openai::law_joined_text(content);
    agent::law_calls_among(content);
    lemma_md_calls(content);
    let said = openai::joined_text(content);
    let whole = "## Assistant\n\n"@ + md_text(said) + md_calls(content) + md_error(
        m->Assistant_error,
    );
    reveal_strlit("## Assistant\n\n");
    reveal_strlit("\n\n");
    reveal_strlit("\n");
    let head = "## Assistant\n\n"@;
    assert(head[head.len() - 1] == '\n');
    if md_error(m->Assistant_error).len() > 0 {
        assert(whole.last() == '\n');
    } else if md_calls(content).len() > 0 {
        lemma_md_calls_end(content);
        assert(whole.last() == '\n');
    } else {
        assert(whole.last() == '\n');
    }
}

proof fn lemma_md_calls_end(content: Seq<ContentModel>)
    requires
        md_calls(content).len() > 0,
    ensures
        md_calls(content).last() == '\n',
    decreases content.len(),
{
    reveal_strlit("\n");
    if !(content.last() is ToolCall) {
        lemma_md_calls_end(content.drop_last());
    }
}

/// What the user said is exported under its heading, and the output of a tool under
/// the tool's name, as it is where it holds no fence.
pub proof fn law_others_are_exported_whole(m: MessageModel)
    ensures
        match m {
            MessageModel::User { content } => md_message(m) == "## You\n\n"@ + text::trim(content)
                + "\n\n"@,
            MessageModel::ToolResult { tool_name, content, is_error, .. } => (forall|i: int|
                !#[trigger] text::occurs_at(content, ticks(), i)) ==> md_message(m)
                == "<details><summary>"@ + (if is_error {
                "error from"@
            } else {
                "output of"@
            }) + " "@ + escaped(tool_name) + "</summary>\n\n```\n"@ + text::trim_end(content)
                + "\n```\n\n</details>\n\n"@,
            _ => true,
        },
{
    if let MessageModel::ToolResult { content, .. } = m {
        if forall|i: int| !#[trigger] text::occurs_at(content, ticks(), i) {
            text::law_replacing_nothing(content, ticks(), apart());
        }
    }
}

/// Three backticks, which end a fenced block.
pub open spec fn ticks() -> Seq<char> {
    seq!['`', '`', '`']
}

/// A page is its title and every message of the conversation, in order.
pub proof fn law_page_is_the_whole_conversation(title: Seq<char>, ms: Seq<MessageModel>)
    ensures
        markdown(title, ms) == "# "@ + escaped(title) + "\n\n"@ + ms.flat_map(
            |m: MessageModel| md_message(m),
        ),
    decreases ms.len(),
{
    let f = |m: MessageModel| md_message(m);
    if ms.len() > 0 {
        law_page_is_the_whole_conversation(title, ms.drop_last());
        text::lemma_flat_map_last(ms, f);
        let head = "# "@ + escaped(title) + "\n\n"@;
        assert(md_messages(ms.drop_last()) =~= markdown(title, ms.drop_last()).skip(
            head.len() as int,
        ));
        assert(ms.drop_last().flat_map(f) =~= markdown(title, ms.drop_last()).skip(
            head.len() as int,
        ));
    } else {
        assert(ms.map_values(f) =~= Seq::empty());
    }
}

/// Escaping changes the three characters that mean something in a page, each by
/// itself, and keeps every other as it is.
pub proof fn law_escaping_is_by_character(s: Seq<char>)
    ensures
        escaped(s) == s.flat_map(
            |c: char|
                if c == '&' {
                    "&amp;"@
                } else if c == '<' {
                    "&lt;"@
                } else if c == '>' {
                    "&gt;"@
                } else {
                    seq![c]
                },
        ),
{
    reveal_strlit("&");
    reveal_strlit("<");
    reveal_strlit(">");
    reveal_strlit("&amp;");
    reveal_strlit("&lt;");
    reveal_strlit("&gt;");
    assert("&"@ =~= seq!['&']);
    assert("<"@ =~= seq!['<']);
    assert(">"@ =~= seq!['>']);
    let f = |c: char|
        if c == '&' {
            "&amp;"@
        } else {
            seq![c]
        };
    let g = |c: char|
        if c == '<' {
            "&lt;"@
        } else {
            seq![c]
        };
    let h = |c: char|
        if c == '>' {
            "&gt;"@
        } else {
            seq![c]
        };
    text::lemma_replacing_by(s, '&', "&amp;"@, f);
    let s1 = s.flat_map(f);
    text::lemma_replacing_by(s1, '<', "&lt;"@, g);
    let s2 = s1.flat_map(g);
    text::lemma_replacing_by(s2, '>', "&gt;"@, h);
    assert(escaped(s) == s2.flat_map(h));
    text::lemma_flat_map_twice(s, f, g);
    let fg = |c: char| f(c).flat_map(g);
    text::lemma_flat_map_twice(s, fg, h);
    let fgh = |c: char| fg(c).flat_map(h);
    let all = |c: char|
        if c == '&' {
            "&amp;"@
        } else if c == '<' {
            "&lt;"@
        } else if c == '>' {
            "&gt;"@
        } else {
            seq![c]
        };
    assert forall|c: char| #[trigger] fgh(c) == all(c) by {
        lemma_one(c, g);
        lemma_one(c, h);
        text::lemma_flat_map_same("&amp;"@, g);
        text::lemma_flat_map_same("&amp;"@, h);
        text::lemma_flat_map_same("&lt;"@, h);
    }
    assert(s.map_values(fgh) =~= s.map_values(all));
}

proof fn lemma_one(c: char, f: spec_fn(char) -> Seq<char>)
    ensures
        seq![c].flat_map(f) == f(c),
{
    text::lemma_flat_map_last(seq![c], f);
    assert(seq![c].drop_last() =~= Seq::empty());
    assert(Seq::<char>::empty().map_values(f) =~= Seq::empty());
    assert(seq![c].flat_map(f) =~= f(c));
}

/// The browser is shown every message that has anything to show, in order.
pub proof fn law_every_message_is_shown(ms: Seq<MessageModel>)
    ensures
        shown_all(ms) == ms.filter_map(|m: MessageModel| shown(m)),
    decreases ms.len(),
{
    if ms.len() > 0 {
        law_every_message_is_shown(ms.drop_last());
    }
}

proof fn lemma_shown_calls(content: Seq<ContentModel>)
    ensures
        ({
            let calls = content.filter(|b: ContentModel| b is ToolCall);
            &&& shown_calls(content).len() == calls.len()
            &&& forall|i: int|
                0 <= i < calls.len() ==> {
                    &&& calls[i] matches ContentModel::ToolCall { name, input, .. }
                    &&& #[trigger] shown_calls(content)[i] == (UiCallModel {
                        name,
                        input: agent::summarized(input),
                    })
                }
        }),
    decreases content.len(),
{
    reveal(Seq::filter);
    if content.len() > 0 {
        lemma_shown_calls(content.drop_last());
        let calls = content.filter(|b: ContentModel| b is ToolCall);
        let before = content.drop_last().filter(|b: ContentModel| b is ToolCall);
        assert forall|i: int| 0 <= i < calls.len() implies {
            &&& calls[i] matches ContentModel::ToolCall { name, input, .. }
            &&& #[trigger] shown_calls(content)[i] == (UiCallModel {
                name,
                input: agent::summarized(input),
            })
        } by {
            if i < before.len() {
                assert(calls[i] == before[i]);
                assert(shown_calls(content)[i] == shown_calls(content.drop_last())[i]);
            }
        }
    }
}

/// An answer is shown with all its text and all its tool calls, in order, and as failed
/// exactly where it has an error. Only one that has none of these is not shown.
pub proof fn law_answer_is_shown_whole(m: MessageModel)
    requires
        m is Assistant,
    ensures
        ({
            let content = m->Assistant_content;
            let said = content.flat_map(
                |b: ContentModel|
                    match b {
                        ContentModel::Text { text } => text,
                        _ => Seq::<char>::empty(),
                    },
            );
            let calls = content.filter(|b: ContentModel| b is ToolCall);
            if said.len() == 0 && calls.len() == 0 && m->Assistant_error is None {
                shown(m) is None
            } else {
                &&& shown(m) matches Some(u)
                &&& u.role == "assistant"@
                &&& u.text == said
                &&& u.is_error <==> m->Assistant_error is Some
                &&& u.tool is None
                &&& u.tool_calls.len() == calls.len()
                &&& forall|i: int|
                    0 <= i < calls.len() ==> {
                        &&& calls[i] matches ContentModel::ToolCall { name, input, .. }
                        &&& #[trigger] u.tool_calls[i] == (UiCallModel {
                            name,
                            input: agent::summarized(input),
                        })
                    }
            }
        }),
{
    openai::law_joined_text(m->Assistant_content);
    lemma_shown_calls(m->Assistant_content);
}

/// What the user said is shown whole, and of a tool its name, whether it failed, and
/// the beginning of its output.
pub proof fn law_others_are_shown(m: MessageModel)
    ensures
        match m {
            MessageModel::User { content } => shown(m) matches Some(u) && u.role == "user"@
                && u.text == content && !u.is_error && u.tool_calls.len() == 0 && u.tool is None,
            MessageModel::ToolResult { tool_name, content, is_error, .. } => {
                &&& shown(m) matches Some(u)
                &&& u.role == "tool"@
                &&& u.is_error == is_error
                &&& u.tool matches Some(t)
                &&& t.name == tool_name
                &&& t.is_error == is_error
                &&& t.preview.is_prefix_of(content)
                &&& t.preview.len() == (if content.len() <= MAX_TOOL_PREVIEW {
                    content.len() as int
                } else {
                    MAX_TOOL_PREVIEW as int
                })
            },
            _ => true,
        },
{
}

/// The keys differ from each other.
proof fn lemma_ui_keys()
    ensures
        "role"@ != "text"@,
        "role"@ != "toolCalls"@,
        "role"@ != "tool"@,
        "role"@ != "isError"@,
        "role"@ != "name"@,
        "role"@ != "input"@,
        "role"@ != "preview"@,
        "text"@ != "toolCalls"@,
        "text"@ != "tool"@,
        "text"@ != "isError"@,
        "text"@ != "name"@,
        "text"@ != "input"@,
        "text"@ != "preview"@,
        "toolCalls"@ != "tool"@,
        "toolCalls"@ != "isError"@,
        "toolCalls"@ != "name"@,
        "toolCalls"@ != "input"@,
        "toolCalls"@ != "preview"@,
        "tool"@ != "isError"@,
        "tool"@ != "name"@,
        "tool"@ != "input"@,
        "tool"@ != "preview"@,
        "isError"@ != "name"@,
        "isError"@ != "input"@,
        "isError"@ != "preview"@,
        "name"@ != "input"@,
        "name"@ != "preview"@,
        "input"@ != "preview"@,
{
    reveal_strlit("role");
    reveal_strlit("text");
    reveal_strlit("toolCalls");
    reveal_strlit("tool");
    reveal_strlit("isError");
    reveal_strlit("name");
    reveal_strlit("input");
    reveal_strlit("preview");
    assert("role"@.len() == 4);
    assert("text"@.len() == 4);
    assert("toolCalls"@.len() == 9);
    assert("tool"@.len() == 4);
    assert("isError"@.len() == 7);
    assert("name"@.len() == 4);
    assert("input"@.len() == 5);
    assert("preview"@.len() == 7);
    assert("role"@[0] == 'r' && "text"@[0] == 't');
    assert("role"@[0] == 'r' && "tool"@[0] == 't');
    assert("role"@[0] == 'r' && "name"@[0] == 'n');
    assert("text"@[1] == 'e' && "tool"@[1] == 'o');
    assert("text"@[0] == 't' && "name"@[0] == 'n');
    assert("tool"@[0] == 't' && "name"@[0] == 'n');
    assert("isError"@[0] == 'i' && "preview"@[0] == 'p');
}

/// The page is told all that there is to show of a message: its role, its text, its tool
/// calls in order, the result of a tool, and whether it failed. What there is none of is
/// left out.
pub proof fn law_page_is_told_all(u: UiModel)
    ensures
        ({
            let j = ui_json(u);
            &&& j.get("role"@) == Some(JsonModel::Str(u.role))
            &&& j.get("text"@) == (if u.text.len() > 0 {
                Some(JsonModel::Str(u.text))
            } else {
                None
            })
            &&& j.get("isError"@) == (if u.is_error {
                Some(JsonModel::Bool(true))
            } else {
                None
            })
            &&& u.tool_calls.len() == 0 ==> j.get("toolCalls"@) is None
            &&& u.tool_calls.len() > 0 ==> {
                &&& j.get("toolCalls"@) matches Some(JsonModel::Array(items))
                &&& items.len() == u.tool_calls.len()
                &&& forall|i: int|
                    0 <= i < items.len() ==> {
                        &&& (#[trigger] items[i]).get("name"@) == Some(
                            JsonModel::Str(u.tool_calls[i].name),
                        )
                        &&& items[i].get("input"@) == Some(JsonModel::Str(u.tool_calls[i].input))
                    }
            }
            &&& match u.tool {
                None => j.get("tool"@) is None,
                Some(t) => {
                    &&& j.get("tool"@) matches Some(r)
                    &&& r.get("name"@) == Some(JsonModel::Str(t.name))
                    &&& r.get("isError"@) == Some(JsonModel::Bool(t.is_error))
                    &&& r.get("preview"@) == Some(JsonModel::Str(t.preview))
                },
            }
        }),
{
    broadcast use json::lemma_get_with;

    lemma_ui_keys();
}

proof fn lemma_trimmed_dashes(s: Seq<char>)
    ensures
        exists|a: Seq<char>, b: Seq<char>|
            #![trigger a + trim_dashes_end(trim_dashes_start(s)) + b]
            s == a + trim_dashes_end(trim_dashes_start(s)) + b && all_dashes(a) && all_dashes(b),
        ({
            let t = trim_dashes_end(trim_dashes_start(s));
            t.len() > 0 ==> t[0] != '-' && t.last() != '-'
        }),
    decreases s.len(),
{
    let none = Seq::<char>::empty();
    let t = trim_dashes_end(trim_dashes_start(s));
    if s.len() > 0 && s[0] == '-' {
        lemma_trimmed_dashes(s.skip(1));
        let (a, b) = choose|a: Seq<char>, b: Seq<char>|
            #![trigger a + trim_dashes_end(trim_dashes_start(s.skip(1))) + b]
            s.skip(1) == a + t + b && all_dashes(a) && all_dashes(b);
        let more = seq![s[0]] + a;
        assert(s =~= seq![s[0]] + s.skip(1));
        assert(more + t + b =~= seq![s[0]] + (a + t + b));
    } else if s.len() > 0 && s.last() == '-' {
        let init = s.drop_last();
        assert(init.len() > 0 ==> init[0] == s[0]);
        assert(trim_dashes_start(s) == s);
        assert(trim_dashes_start(init) == init);
        lemma_trimmed_dashes(init);
        let (a, b) = choose|a: Seq<char>, b: Seq<char>|
            #![trigger a + trim_dashes_end(trim_dashes_start(init)) + b]
            init == a + t + b && all_dashes(a) && all_dashes(b);
        let more = b.push(s.last());
        assert(s =~= init.push(s.last()));
        assert(a + t + more =~= (a + t + b).push(s.last()));
    } else {
        assert(s =~= none + t + none);
    }
}

/// `s` is nothing but dashes.
pub open spec fn all_dashes(s: Seq<char>) -> bool {
    forall|i: int| 0 <= i < s.len() ==> #[trigger] s[i] == '-'
}

/// The stem of a file name is the title, character by character: letters, digits, `-` and
/// `_` stay, everything else is a dash, and only dashes at the ends go.
pub proof fn law_stem_is_the_title(title: Seq<char>)
    ensures
        exists|a: Seq<char>, b: Seq<char>|
            #![trigger a + stem(title) + b]
            a + stem(title) + b == title.map_values(
                |c: char|
                    if text::alphanumeric(c) || c == '-' || c == '_' {
                        c
                    } else {
                        '-'
                    },
            ) && all_dashes(a) && all_dashes(b),
        stem(title).len() > 0 ==> stem(title)[0] != '-' && stem(title).last() != '-',
{
    lemma_trimmed_dashes(dashed(title));
    let (a, b) = choose|a: Seq<char>, b: Seq<char>|
        #![trigger a + trim_dashes_end(trim_dashes_start(dashed(title))) + b]
        dashed(title) == a + stem(title) + b && all_dashes(a) && all_dashes(b);
    assert(a + stem(title) + b =~= title.map_values(
        |c: char|
            if text::alphanumeric(c) || c == '-' || c == '_' {
                c
            } else {
                '-'
            },
    ));
}

/// The name of an exported file is its stem, cut where it is too long, and tells the
/// format; a title without a stem has a name too.
pub proof fn law_file_is_named_after_its_stem(lowered: Seq<char>)
    ensures
        0 < lowered.len() <= 60 ==> filename(lowered) == lowered + ".md"@,
        lowered.len() > 60 ==> filename(lowered) == lowered.take(60) + ".md"@,
        lowered.len() == 0 ==> filename(lowered) == "conversation.md"@,
{
}

proof fn lemma_all_kept(s: Seq<char>)
    requires
        !s.contains('\u{200b}'),
    ensures
        s.filter(|c: char| c != '\u{200b}') == s,
    decreases s.len(),
{
    reveal(Seq::filter);
    if s.len() > 0 {
        let init = s.drop_last();
        assert forall|k: int| 0 <= k < init.len() implies init[k] != '\u{200b}' by {
            assert(s[k] == init[k]);
            assert(s.contains(s[k]));
        }
        lemma_all_kept(init);
        assert(s[s.len() - 1] == s.last());
        assert(s.contains(s.last()));
        assert(init.push(s.last()) =~= s);
    } else {
        assert(s =~= Seq::empty());
    }
}

proof fn lemma_apart_is_ticks()
    ensures
        apart().filter(|c: char| c != '\u{200b}') == ticks(),
{
    let p = |c: char| c != '\u{200b}';
    reveal(Seq::filter);
    let z = '\u{200b}';
    let a1 = seq![z];
    let a2 = seq![z, '`'];
    let a3 = seq![z, '`', z];
    let a4 = seq![z, '`', z, '`'];
    let a5 = seq![z, '`', z, '`', z];
    assert(a1.drop_last() =~= Seq::empty());
    assert(a2.drop_last() =~= a1);
    assert(a3.drop_last() =~= a2);
    assert(a4.drop_last() =~= a3);
    assert(a5.drop_last() =~= a4);
    assert(apart().drop_last() =~= a5);
    assert(Seq::<char>::empty().filter(p) =~= Seq::empty());
    assert(a1.filter(p) =~= Seq::empty());
    assert(a2.filter(p) =~= seq!['`']);
    assert(a3.filter(p) =~= seq!['`']);
    assert(a4.filter(p) =~= seq!['`', '`']);
    assert(a5.filter(p) =~= seq!['`', '`']);
    assert(apart().filter(p) =~= ticks());
}

proof fn lemma_apart_from(s: Seq<char>, from: int)
    requires
        0 <= from <= s.len(),
        !s.contains('\u{200b}'),
    ensures
        text::replace_from(s, ticks(), apart(), from).filter(|c: char| c != '\u{200b}') == s.skip(
            from,
        ),
    decreases s.len() - from,
{
    let p = |c: char| c != '\u{200b}';
    text::lemma_find_from(s, ticks(), from);
    match text::find_from(s, ticks(), from) {
        Some(i) => {
            lemma_apart_from(s, i + 3);
            let kept = s.subrange(from, i);
            let more = text::replace_from(s, ticks(), apart(), i + 3);
            assert forall|k: int| 0 <= k < kept.len() implies kept[k] != '\u{200b}' by {
                assert(s[from + k] == kept[k]);
                assert(s.contains(s[from + k]));
            }
            lemma_all_kept(kept);
            lemma_apart_is_ticks();
            Seq::filter_distributes_over_add(kept, apart(), p);
            Seq::filter_distributes_over_add(kept + apart(), more, p);
            assert(s.subrange(i, i + 3) == ticks());
            assert(s.skip(from) =~= kept + s.subrange(i, i + 3) + s.skip(i + 3));
        },
        None => {
            let kept = s.skip(from);
            assert forall|k: int| 0 <= k < kept.len() implies kept[k] != '\u{200b}' by {
                assert(s[from + k] == kept[k]);
                assert(s.contains(s[from + k]));
            }
            lemma_all_kept(kept);
        },
    }
}

/// The output of a tool is exported whole: but for the marks that take its fences apart and
/// the white space at its end, it is what the tool wrote.
pub proof fn law_output_is_exported_whole(content: Seq<char>)
    requires
        !content.contains('\u{200b}'),
    ensures
        exists|shown: Seq<char>|
            #![trigger text::trim_end(shown)]
            fenced(content) == text::trim_end(shown) && shown.filter(|c: char| c != '\u{200b}')
                == content,
{
    let shown = text::replace(content, ticks(), apart());
    lemma_apart_from(content, 0);
    assert(content.skip(0) =~= content);
    assert(fenced(content) == text::trim_end(shown));
}

} // verus!
