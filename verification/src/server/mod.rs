//! The web surface: what requests are answered, and how a running turn is
//! reported.
//!
//! A request starts a turn; a stream of events reports its progress. One turn runs
//! at a time: a second one would write into the same conversation.
pub mod assets;
pub mod auth;
pub mod dto;
pub mod prose;

use crate::agent::{AgentEvent, NoticeModel};
use crate::json;
use crate::json::{Json, JsonModel, JsonObject};
use crate::session;
use crate::session::{Session, SessionMeta};
use crate::text;
use crate::types;
use vstd::prelude::*;

verus! {

broadcast use vstd::std_specs::vec::axiom_spec_len;

/// What a request is answered.
#[derive(Debug, PartialEq)]
pub enum Answer {
    Text { status: u16, text: String },
    /// A JSON value, with success.
    Value(Json),
}

/// What an [`Answer`] holds.
#[allow(inconsistent_fields)]
pub enum AnswerModel {
    Text { status: u16, text: Seq<char> },
    Value(JsonModel),
}

impl Answer {
    pub open spec fn view(&self) -> AnswerModel {
        match self {
            Answer::Text { status, text } => AnswerModel::Text { status: *status, text: text@ },
            Answer::Value(j) => AnswerModel::Value(j@),
        }
    }
}

fn text_answer(status: u16, text: &str) -> (r: Answer)
    ensures
        r@ == (AnswerModel::Text { status, text: text@ }),
{
    Answer::Text { status, text: text.to_owned() }
}

/// What is answered to a message that says nothing; any other may go on.
pub fn check_message(message: &str) -> (r: Option<Answer>)
    ensures
        match r {
            Some(a) => text::trim(message@).len() == 0 && a@ == (AnswerModel::Text {
                status: 400,
                text: "message must not be empty"@,
            }),
            None => text::trim(message@).len() > 0,
        },
{
    let t = text::trimmed(message);
    if t.as_str().is_empty() {
        Some(text_answer(400, "message must not be empty"))
    } else {
        None
    }
}

/// What is answered while a turn is running, to anything that would change the
/// agent.
pub fn busy() -> (r: Answer)
    ensures
        r@ == (AnswerModel::Text { status: 409, text: "a turn is already running"@ }),
{
    text_answer(409, "a turn is already running")
}

/// What is answered where something failed.
pub fn failed(reason: &str) -> (r: Answer)
    ensures
        r@ == (AnswerModel::Text { status: 500, text: reason@ }),
{
    text_answer(500, reason)
}

/// What is answered about a session that is not there.
pub fn no_such_session() -> (r: Answer)
    ensures
        r@ == (AnswerModel::Text { status: 404, text: "no such session"@ }),
{
    text_answer(404, "no such session")
}

/// What is answered about a session that is not there, given whether its file is;
/// one that is may go on. An id that is not well-formed names none.
pub fn check_session(id: &str, file_exists: bool) -> (r: Option<Answer>)
    ensures
        match r {
            Some(a) => !(session::valid_id(id@) && file_exists) && a@ == (AnswerModel::Text {
                status: 404,
                text: "no such session"@,
            }),
            None => session::valid_id(id@) && file_exists,
        },
{
    if Session::is_stored(id, file_exists) {
        None
    } else {
        Some(no_such_session())
    }
}

/// The reply of a turn.
pub open spec fn reply_json(reply: Seq<char>) -> JsonModel {
    JsonModel::object().with("reply"@, JsonModel::Str(reply))
}

/// What is answered once a turn is over.
pub fn chat(result: Result<String, String>) -> (r: Answer)
    ensures
        r@ == (match result {
            Ok(reply) => AnswerModel::Value(reply_json(reply@)),
            Err(e) => AnswerModel::Text { status: 500, text: e@ },
        }),
{
    match result {
        Ok(reply) => Answer::Value(
            Json::Object(JsonObject::new().with("reply", Json::Str(reply))),
        ),
        Err(e) => Answer::Text { status: 500, text: e },
    }
}

/// What is answered once the last turn was run again, where there was one.
pub fn regenerate(result: Result<Option<String>, String>) -> (r: Answer)
    ensures
        r@ == (match result {
            Ok(Some(reply)) => AnswerModel::Value(reply_json(reply@)),
            Ok(None) => AnswerModel::Text { status: 400, text: "nothing to regenerate"@ },
            Err(e) => AnswerModel::Text { status: 500, text: e@ },
        }),
{
    match result {
        Ok(Some(reply)) => chat(Ok(reply)),
        Ok(None) => text_answer(400, "nothing to regenerate"),
        Err(e) => chat(Err(e)),
    }
}

/// What is answered to a request to stop the turn, given whether one is running.
pub fn abort(running: bool) -> (r: Answer)
    ensures
        r@ == (AnswerModel::Text {
            status: 200,
            text: if running {
                "cancelled"@
            } else {
                "nothing running"@
            },
        }),
{
    if running {
        text_answer(200, "cancelled")
    } else {
        text_answer(200, "nothing running")
    }
}

/// What is answered to a message for the turn that is running, given whether it
/// could be queued.
pub fn steer(queued: bool) -> (r: Answer)
    ensures
        r@ == (if queued {
            AnswerModel::Text { status: 202, text: "queued"@ }
        } else {
            AnswerModel::Text { status: 410, text: "agent is gone"@ }
        }),
{
    if queued {
        text_answer(202, "queued")
    } else {
        text_answer(410, "agent is gone")
    }
}

/// What the page is told of the agent.
pub fn current_state(session_id: &str, model: &str, version: &str) -> (r: Answer)
    ensures
        r@ == AnswerModel::Value(
            JsonModel::object().with("sessionId"@, JsonModel::Str(session_id@)).with(
                "model"@,
                JsonModel::Str(model@),
            ).with("version"@, JsonModel::Str(version@)),
        ),
{
    Answer::Value(
        Json::Object(
            JsonObject::new().with("sessionId", Json::string(session_id)).with(
                "model",
                Json::string(model),
            ).with("version", Json::string(version)),
        ),
    )
}

/// The listing of all conversations, and which one is loaded.
pub fn list_sessions(active: &str, metas: &Vec<SessionMeta>) -> (r: Answer)
    ensures
        r@ == AnswerModel::Value(
            JsonModel::object().with("active"@, JsonModel::Str(active@)).with(
                "sessions"@,
                JsonModel::Array(session::rows_json(session::rows(metas@))),
            ),
        ),
{
    Answer::Value(
        Json::Object(
            JsonObject::new().with("active", Json::string(active)).with(
                "sessions",
                session::rows_to_json(metas),
            ),
        ),
    )
}

/// What is answered once a conversation was made or loaded.
pub fn selected(id: &str) -> (r: Answer)
    ensures
        r@ == AnswerModel::Value(JsonModel::object().with("id"@, JsonModel::Str(id@))),
{
    Answer::Value(Json::Object(JsonObject::new().with("id", Json::string(id))))
}

/// The messages of the page as JSON.
pub open spec fn page_json(us: Seq<dto::UiModel>) -> Seq<JsonModel> {
    Seq::new(us.len(), |i: int| dto::ui_json(us[i]))
}

/// A conversation, as the page shows it.
pub fn read_session(s: &Session) -> (r: Answer)
    ensures
        r@ == AnswerModel::Value(
            JsonModel::object().with("id"@, JsonModel::Str(s.id@)).with(
                "title"@,
                JsonModel::Str(
                    session::shown_title(text::opt(s.title), types::messages(s.messages@)),
                ),
            ).with(
                "messages"@,
                JsonModel::Array(page_json(dto::shown_all(types::messages(s.messages@)))),
            ),
        ),
{
    let shown = dto::transcript(s.messages.as_slice());
    let mut messages: Vec<Json> = Vec::new();
    let mut i: usize = 0;
    while i < shown.len()
        invariant
            i <= shown@.len(),
            messages@.len() == i,
            forall|j: int| 0 <= j < i ==> (#[trigger] messages@[j])@ == dto::ui_json(shown@[j]@),
        decreases shown@.len() - i,
    {
        messages.push(shown[i].to_json());
        i += 1;
    }
    assert(json::models(messages@) =~= page_json(dto::ui_models(shown@)));
    let title = s.display_title();
    Answer::Value(
        Json::Object(
            JsonObject::new().with("id", Json::string(s.id.as_str())).with(
                "title",
                Json::Str(title),
            ).with("messages", Json::array(messages)),
        ),
    )
}

/// The type of an export.
pub const MARKDOWN: &'static str = "text/markdown; charset=utf-8";

/// An export: what the browser is told to call it, and what it holds.
#[derive(Debug, PartialEq)]
pub struct Export {
    pub disposition: String,
    pub body: String,
}

/// A conversation as a Markdown document, offered as a download.
pub fn export_session(s: &Session) -> (r: Export)
    ensures
        ({
            let title = session::shown_title(text::opt(s.title), types::messages(s.messages@));
            &&& r.disposition@ == "attachment; filename=\""@ + dto::filename(
                text::lowercase(dto::stem(title)),
            ) + "\""@
            &&& r.body@ == dto::markdown(title, types::messages(s.messages@))
        }),
{
    let title = s.display_title();
    let body = dto::to_markdown(title.as_str(), s.messages.as_slice());
    let mut disposition = "attachment; filename=\"".to_owned();
    let name = dto::export_filename(title.as_str());
    disposition.push_str(name.as_str());
    disposition.push_str("\"");
    Export { disposition, body }
}

/// What is answered to a title that says nothing; any other may go on.
pub fn check_title(title: &str) -> (r: Option<Answer>)
    ensures
        match r {
            Some(a) => text::trim(title@).len() == 0 && a@ == (AnswerModel::Text {
                status: 400,
                text: "title must not be empty"@,
            }),
            None => text::trim(title@).len() > 0,
        },
{
    let t = text::trimmed(title);
    if t.as_str().is_empty() {
        Some(text_answer(400, "title must not be empty"))
    } else {
        None
    }
}

/// What is answered to a renaming that cannot be done: the title says nothing, or
/// the session is not there.
pub fn check_rename(title: &str, id: &str, file_exists: bool) -> (r: Option<Answer>)
    ensures
        match r {
            Some(a) => a@ == (if text::trim(title@).len() == 0 {
                AnswerModel::Text { status: 400, text: "title must not be empty"@ }
            } else {
                AnswerModel::Text { status: 404, text: "no such session"@ }
            }) && (text::trim(title@).len() > 0 ==> !(session::valid_id(id@) && file_exists)),
            None => text::trim(title@).len() > 0 && session::valid_id(id@) && file_exists,
        },
{
    match check_title(title) {
        Some(a) => Some(a),
        None => check_session(id, file_exists),
    }
}

/// What is answered once a conversation was renamed.
pub fn renamed(id: &str, title: &str) -> (r: Answer)
    ensures
        r@ == AnswerModel::Value(
            JsonModel::object().with("id"@, JsonModel::Str(id@)).with(
                "title"@,
                JsonModel::Str(title@),
            ),
        ),
{
    Answer::Value(
        Json::Object(
            JsonObject::new().with("id", Json::string(id)).with("title", Json::string(title)),
        ),
    )
}

/// What is answered where a conversation could not be deleted.
pub fn not_deleted(reason: &str) -> (r: Answer)
    ensures
        r@ == (AnswerModel::Text { status: 404, text: reason@ }),
{
    text_answer(404, reason)
}

/// What is answered once a conversation was deleted, and which one is loaded now.
pub fn deleted(id: &str, active: &str) -> (r: Answer)
    ensures
        r@ == AnswerModel::Value(
            JsonModel::object().with("deleted"@, JsonModel::Str(id@)).with(
                "active"@,
                JsonModel::Str(active@),
            ),
        ),
{
    Answer::Value(
        Json::Object(
            JsonObject::new().with("deleted", Json::string(id)).with(
                "active",
                Json::string(active),
            ),
        ),
    )
}

/// The name of an event on the wire.
pub open spec fn event_name(ev: NoticeModel) -> Seq<char> {
    match ev {
        NoticeModel::TurnStart => "turn_start"@,
        NoticeModel::TextDelta(_) => "delta"@,
        NoticeModel::ThinkingDelta(_) => "thinking"@,
        NoticeModel::ToolStart { .. } => "tool_start"@,
        NoticeModel::ToolEnd { .. } => "tool_end"@,
        NoticeModel::Reply(_) => "reply"@,
        NoticeModel::Compacted { .. } => "compacted"@,
        NoticeModel::TurnEnd { .. } => "turn_end"@,
        NoticeModel::Error(_) => "error"@,
    }
}

/// The payload of an event.
pub open spec fn event_json(ev: NoticeModel) -> JsonModel {
    match ev {
        NoticeModel::TurnStart => JsonModel::object(),
        NoticeModel::TextDelta(t) => JsonModel::Str(t),
        NoticeModel::ThinkingDelta(t) => JsonModel::Str(t),
        NoticeModel::ToolStart { name, input } => JsonModel::object().with(
            "name"@,
            JsonModel::Str(name),
        ).with("input"@, JsonModel::Str(input)),
        NoticeModel::ToolEnd { name, is_error, preview } => JsonModel::object().with(
            "name"@,
            JsonModel::Str(name),
        ).with("isError"@, JsonModel::Bool(is_error)).with("preview"@, JsonModel::Str(preview)),
        NoticeModel::Reply(t) => JsonModel::Str(t),
        NoticeModel::Compacted { dropped } => JsonModel::object().with(
            "dropped"@,
            JsonModel::integer(dropped as int),
        ),
        NoticeModel::TurnEnd { usage } => JsonModel::object().with(
            "input"@,
            JsonModel::integer(usage.input as int),
        ).with("output"@, JsonModel::integer(usage.output as int)).with(
            "cacheRead"@,
            JsonModel::integer(usage.cache_read as int),
        ),
        NoticeModel::Error(t) => JsonModel::Str(t),
    }
}

fn payload(ev: &AgentEvent) -> (r: Json)
    ensures
        r@ == event_json(ev@),
{
    match ev {
        AgentEvent::TurnStart => Json::Object(JsonObject::new()),
        AgentEvent::TextDelta(t) => Json::string(t.as_str()),
        AgentEvent::ThinkingDelta(t) => Json::string(t.as_str()),
        AgentEvent::ToolStart { name, input } => Json::Object(
            JsonObject::new().with("name", Json::string(name.as_str())).with(
                "input",
                Json::string(input.as_str()),
            ),
        ),
        AgentEvent::ToolEnd { name, is_error, preview } => Json::Object(
            JsonObject::new().with("name", Json::string(name.as_str())).with(
                "isError",
                Json::Bool(*is_error),
            ).with("preview", Json::string(preview.as_str())),
        ),
        AgentEvent::Reply(t) => Json::string(t.as_str()),
        AgentEvent::Compacted { dropped } => Json::Object(
            JsonObject::new().with("dropped", Json::from_u64(*dropped as u64)),
        ),
        AgentEvent::TurnEnd { usage } => Json::Object(
            JsonObject::new().with("input", Json::from_u64(usage.input as u64)).with(
                "output",
                Json::from_u64(usage.output as u64),
            ).with("cacheRead", Json::from_u64(usage.cache_read as u64)),
        ),
        AgentEvent::Error(t) => Json::string(t.as_str()),
    }
}

/// No key that is written here is the reader's own mark.
proof fn lemma_keys_are_ordinary()
    ensures
        "cacheRead"@ != json::raw_mark(),
        "dropped"@ != json::raw_mark(),
        "input"@ != json::raw_mark(),
        "isError"@ != json::raw_mark(),
        "name"@ != json::raw_mark(),
        "output"@ != json::raw_mark(),
        "preview"@ != json::raw_mark(),
{
    reveal_strlit("$serde_json::private::RawValue");
    assert(json::raw_mark().len() == 30);
    reveal_strlit("cacheRead");
    assert("cacheRead"@.len() == 9);
    reveal_strlit("dropped");
    assert("dropped"@.len() == 7);
    reveal_strlit("input");
    assert("input"@.len() == 5);
    reveal_strlit("isError");
    assert("isError"@.len() == 7);
    reveal_strlit("name");
    assert("name"@.len() == 4);
    reveal_strlit("output");
    assert("output"@.len() == 6);
    reveal_strlit("preview");
    assert("preview"@.len() == 7);
}

proof fn lemma_payload_is_plain(ev: NoticeModel)
    ensures
        json::is_plain(event_json(ev), json::MAX_DEPTH as nat),
{
    broadcast use json::lemma_plain_with;

    lemma_keys_are_ordinary();
    assert(json::is_plain(JsonModel::object(), 127));
}

/// An event on the wire: its name, and its payload as JSON. Frames end at a line
/// feed, so the payload holds none; it is read back as what was sent.
pub fn encode(ev: &AgentEvent) -> (r: (&'static str, String))
    ensures
        r.0@ == event_name(ev@),
        r.1@ == json::json_text(event_json(ev@)),
        !r.1@.contains('\n'),
        !r.1@.contains('\r'),
        json::json_parsed(r.1@) == Some(event_json(ev@)),
{
    proof {
        lemma_payload_is_plain(ev@);
    }
    let name = match ev {
        AgentEvent::TurnStart => "turn_start",
        AgentEvent::TextDelta(_) => "delta",
        AgentEvent::ThinkingDelta(_) => "thinking",
        AgentEvent::ToolStart { .. } => "tool_start",
        AgentEvent::ToolEnd { .. } => "tool_end",
        AgentEvent::Reply(_) => "reply",
        AgentEvent::Compacted { .. } => "compacted",
        AgentEvent::TurnEnd { .. } => "turn_end",
        AgentEvent::Error(_) => "error",
    };
    (name, payload(ev).to_text())
}

/// The keys differ from each other.
proof fn lemma_event_keys()
    ensures
        "name"@ != "input"@,
        "name"@ != "isError"@,
        "name"@ != "preview"@,
        "name"@ != "dropped"@,
        "name"@ != "output"@,
        "name"@ != "cacheRead"@,
        "input"@ != "isError"@,
        "input"@ != "preview"@,
        "input"@ != "dropped"@,
        "input"@ != "output"@,
        "input"@ != "cacheRead"@,
        "isError"@ != "preview"@,
        "isError"@ != "dropped"@,
        "isError"@ != "output"@,
        "isError"@ != "cacheRead"@,
        "preview"@ != "dropped"@,
        "preview"@ != "output"@,
        "preview"@ != "cacheRead"@,
        "dropped"@ != "output"@,
        "dropped"@ != "cacheRead"@,
        "output"@ != "cacheRead"@,
{
    reveal_strlit("name");
    reveal_strlit("input");
    reveal_strlit("isError");
    reveal_strlit("preview");
    reveal_strlit("dropped");
    reveal_strlit("output");
    reveal_strlit("cacheRead");
    assert("name"@.len() == 4);
    assert("input"@.len() == 5);
    assert("isError"@.len() == 7);
    assert("preview"@.len() == 7);
    assert("dropped"@.len() == 7);
    assert("output"@.len() == 6);
    assert("cacheRead"@.len() == 9);
    assert("isError"@[0] == 'i' && "preview"@[0] == 'p');
    assert("isError"@[0] == 'i' && "dropped"@[0] == 'd');
    assert("preview"@[0] == 'p' && "dropped"@[0] == 'd');
}

/// An event carries what it tells: a text as it is, and of a tool, a compaction or the
/// end of a turn all that there is to show.
pub proof fn law_events_carry_what_they_tell(ev: NoticeModel)
    ensures
        match ev {
            NoticeModel::TextDelta(t) => event_json(ev) == JsonModel::Str(t),
            NoticeModel::ThinkingDelta(t) => event_json(ev) == JsonModel::Str(t),
            NoticeModel::Reply(t) => event_json(ev) == JsonModel::Str(t),
            NoticeModel::Error(t) => event_json(ev) == JsonModel::Str(t),
            NoticeModel::TurnStart => true,
            NoticeModel::ToolStart { name, input } => event_json(ev).get("name"@) == Some(
                JsonModel::Str(name),
            ) && event_json(ev).get("input"@) == Some(JsonModel::Str(input)),
            NoticeModel::ToolEnd { name, is_error, preview } => event_json(ev).get("name"@)
                == Some(JsonModel::Str(name)) && event_json(ev).get("isError"@) == Some(
                JsonModel::Bool(is_error),
            ) && event_json(ev).get("preview"@) == Some(JsonModel::Str(preview)),
            NoticeModel::Compacted { dropped } => event_json(ev).get("dropped"@) == Some(
                JsonModel::integer(dropped as int),
            ),
            NoticeModel::TurnEnd { usage } => event_json(ev).get("input"@) == Some(
                JsonModel::integer(usage.input as int),
            ) && event_json(ev).get("output"@) == Some(JsonModel::integer(usage.output as int))
                && event_json(ev).get("cacheRead"@) == Some(
                JsonModel::integer(usage.cache_read as int),
            ),
        },
{
    broadcast use json::lemma_get_with;

    lemma_event_keys();
}

/// The keys differ from each other.
proof fn lemma_event_names_differ()
    ensures
        "turn_start"@ != "delta"@,
        "turn_start"@ != "thinking"@,
        "turn_start"@ != "tool_start"@,
        "turn_start"@ != "tool_end"@,
        "turn_start"@ != "reply"@,
        "turn_start"@ != "compacted"@,
        "turn_start"@ != "turn_end"@,
        "turn_start"@ != "error"@,
        "delta"@ != "thinking"@,
        "delta"@ != "tool_start"@,
        "delta"@ != "tool_end"@,
        "delta"@ != "reply"@,
        "delta"@ != "compacted"@,
        "delta"@ != "turn_end"@,
        "delta"@ != "error"@,
        "thinking"@ != "tool_start"@,
        "thinking"@ != "tool_end"@,
        "thinking"@ != "reply"@,
        "thinking"@ != "compacted"@,
        "thinking"@ != "turn_end"@,
        "thinking"@ != "error"@,
        "tool_start"@ != "tool_end"@,
        "tool_start"@ != "reply"@,
        "tool_start"@ != "compacted"@,
        "tool_start"@ != "turn_end"@,
        "tool_start"@ != "error"@,
        "tool_end"@ != "reply"@,
        "tool_end"@ != "compacted"@,
        "tool_end"@ != "turn_end"@,
        "tool_end"@ != "error"@,
        "reply"@ != "compacted"@,
        "reply"@ != "turn_end"@,
        "reply"@ != "error"@,
        "compacted"@ != "turn_end"@,
        "compacted"@ != "error"@,
        "turn_end"@ != "error"@,
{
    reveal_strlit("turn_start");
    reveal_strlit("delta");
    reveal_strlit("thinking");
    reveal_strlit("tool_start");
    reveal_strlit("tool_end");
    reveal_strlit("reply");
    reveal_strlit("compacted");
    reveal_strlit("turn_end");
    reveal_strlit("error");
    assert("turn_start"@.len() == 10);
    assert("delta"@.len() == 5);
    assert("thinking"@.len() == 8);
    assert("tool_start"@.len() == 10);
    assert("tool_end"@.len() == 8);
    assert("reply"@.len() == 5);
    assert("compacted"@.len() == 9);
    assert("turn_end"@.len() == 8);
    assert("error"@.len() == 5);
    assert("turn_start"@[1] == 'u' && "tool_start"@[1] == 'o');
    assert("delta"@[0] == 'd' && "reply"@[0] == 'r');
    assert("delta"@[0] == 'd' && "error"@[0] == 'e');
    assert("thinking"@[1] == 'h' && "tool_end"@[1] == 'o');
    assert("thinking"@[1] == 'h' && "turn_end"@[1] == 'u');
    assert("tool_end"@[1] == 'o' && "turn_end"@[1] == 'u');
    assert("reply"@[0] == 'r' && "error"@[0] == 'e');
}

/// The name of an event tells its kind.
pub proof fn law_event_names_tell_the_kind(a: NoticeModel, b: NoticeModel)
    requires
        event_name(a) == event_name(b),
    ensures
        a is TextDelta <==> b is TextDelta,
        a is ThinkingDelta <==> b is ThinkingDelta,
        a is ToolStart <==> b is ToolStart,
        a is ToolEnd <==> b is ToolEnd,
        a is Reply <==> b is Reply,
        a is Compacted <==> b is Compacted,
        a is TurnStart <==> b is TurnStart,
        a is TurnEnd <==> b is TurnEnd,
        a is Error <==> b is Error,
{
    lemma_event_names_differ();
}

/// A conversation is sent message by message, in order, and a reply as it is.
pub proof fn law_page_holds_every_message(us: Seq<dto::UiModel>, reply: Seq<char>)
    ensures
        page_json(us).len() == us.len(),
        forall|i: int| 0 <= i < us.len() ==> #[trigger] page_json(us)[i] == dto::ui_json(us[i]),
        reply_json(reply).get("reply"@) == Some(JsonModel::Str(reply)),
{
    broadcast use json::lemma_get_with;

}

} // verus!
