//! OpenAI-compatible `/v1/chat/completions` with streamed answers.
use crate::config;
use crate::config::ModelConfig;
use crate::json::{Json, JsonModel, JsonObject};
use crate::llm;
use crate::llm::{ApiError, Request, ToolSchema};
use crate::text;
use crate::types;
use crate::types::{ContentBlock, ContentModel, Message, MessageModel, StopReason, StreamEvent, StreamModel, Usage};
use vstd::prelude::*;

verus! {

broadcast use vstd::std_specs::vec::axiom_spec_len;

/// The model behind an OpenAI-compatible server.
pub struct Client {
    pub base_url: String,
    pub model: String,
    pub api_key: Option<String>,
}

impl Client {
    /// The client that `cfg` describes, with what the environment holds under
    /// `api_key_env`.
    pub open spec fn is_for(&self, cfg: &ModelConfig, key: Option<Seq<char>>) -> bool {
        &&& self.base_url@ == text::trim_slashes(cfg.base_url@)
        &&& self.model@ == cfg.model@
        &&& text::opt(self.api_key) == (if cfg.api_key_env@.len() == 0 {
            None
        } else {
            config::nonempty(key)
        })
    }

    pub fn new(cfg: &ModelConfig, key: Option<String>) -> (r: Client)
        ensures
            r.is_for(cfg, text::opt(key)),
    {
        Client {
            base_url: text::trimmed_slashes(cfg.base_url.as_str()),
            model: cfg.model.clone(),
            api_key: cfg.api_key(key),
        }
    }

    /// Where requests go.
    pub fn url(&self) -> (r: String)
        ensures
            r@ == self.base_url@ + "/chat/completions"@,
    {
        let mut out = self.base_url.clone();
        out.push_str("/chat/completions");
        out
    }

    /// The body of a request.
    pub fn build_body(&self, req: &Request) -> (r: Json)
        ensures
            r@ == body_of(
                self.model@,
                req.system@,
                types::messages(req.messages@),
                llm::schemas_of(req.tools@),
                req.max_tokens,
                llm::temperature_of(req.temperature),
                req.stream_usage,
            ),
    {
        let mut messages: Vec<Json> = Vec::new();
        messages.push(
            Json::Object(
                JsonObject::new().with("role", Json::string("system")).with(
                    "content",
                    Json::string(req.system),
                ),
            ),
        );
        let ghost all = types::messages(req.messages@);
        let ghost first = system_json(req.system@);
        let mut i: usize = 0;
        assert(crate::json::models(messages@) =~= seq![first] + encoded(all.take(0)));
        while i < req.messages.len()
            invariant
                i <= req.messages@.len(),
                all == types::messages(req.messages@),
                crate::json::models(messages@) == seq![first] + encoded(all.take(i as int)),
            decreases req.messages@.len() - i,
        {
            let ghost before = messages@;
            messages.push(encode_message(&req.messages[i]));
            assert(all.take(i + 1)[i as int] == req.messages@[i as int]@);
            assert(crate::json::models(messages@) =~= crate::json::models(before).push(
                message_json(req.messages@[i as int]@),
            ));
            assert(encoded(all.take(i + 1)) =~= encoded(all.take(i as int)).push(
                message_json(all[i as int]),
            ));
            i += 1;
        }
        assert(all.take(i as int) =~= all);
        let mut body = JsonObject::new().with("model", Json::string(self.model.as_str())).with(
            "messages",
            Json::array(messages),
        ).with("max_tokens", Json::from_u64(req.max_tokens as u64)).with("stream", Json::Bool(true));
        if req.stream_usage {
            body = body.with(
                "stream_options",
                Json::Object(JsonObject::new().with("include_usage", Json::Bool(true))),
            );
        }
        if let Some(t) = &req.temperature {
            body = body.with("temperature", t.clone());
        }
        if req.tools.len() > 0 {
            let mut tools: Vec<Json> = Vec::new();
            let mut k: usize = 0;
            while k < req.tools.len()
                invariant
                    k <= req.tools@.len(),
                    tools@.len() == k,
                    forall|j: int|
                        0 <= j < k ==> (#[trigger] tools@[j])@ == tool_json(
                            llm::schema_of(req.tools@[j]),
                        ),
                decreases req.tools@.len() - k,
            {
                tools.push(encode_tool(&req.tools[k]));
                k += 1;
            }
            assert(crate::json::models(tools@) =~= tools_json(llm::schemas_of(req.tools@)));
            body = body.with("tools", Json::array(tools));
        }
        Json::Object(body)
    }
}

/// The message that carries the system prompt.
pub open spec fn system_json(system: Seq<char>) -> JsonModel {
    JsonModel::object().with("role"@, JsonModel::Str("system"@)).with(
        "content"@,
        JsonModel::Str(system),
    )
}

/// The messages of a conversation, each by itself.
pub open spec fn encoded(ms: Seq<MessageModel>) -> Seq<JsonModel> {
    Seq::new(ms.len(), |i: int| message_json(ms[i]))
}

/// The tools, each by itself.
pub open spec fn tools_json(ts: Seq<llm::SchemaModel>) -> Seq<JsonModel> {
    Seq::new(ts.len(), |i: int| tool_json(ts[i]))
}

/// The body of a request. Token counts are asked for only where wanted, and the
/// temperature and the tools are left out where there are none.
pub open spec fn body_of(
    model: Seq<char>,
    system: Seq<char>,
    messages: Seq<MessageModel>,
    tools: Seq<llm::SchemaModel>,
    max_tokens: u32,
    temperature: Option<JsonModel>,
    stream_usage: bool,
) -> JsonModel {
    let fixed = JsonModel::object().with("model"@, JsonModel::Str(model)).with(
        "messages"@,
        JsonModel::Array(seq![system_json(system)] + encoded(messages)),
    ).with("max_tokens"@, JsonModel::integer(max_tokens as int)).with(
        "stream"@,
        JsonModel::Bool(true),
    );
    llm::with_opt(
        llm::with_opt(
            llm::with_opt(
                fixed,
                "stream_options"@,
                if stream_usage {
                    Some(JsonModel::object().with("include_usage"@, JsonModel::Bool(true)))
                } else {
                    None
                },
            ),
            "temperature"@,
            temperature,
        ),
        "tools"@,
        if tools.len() > 0 {
            Some(JsonModel::Array(tools_json(tools)))
        } else {
            None
        },
    )
}

/// How a tool is advertised.
pub open spec fn tool_json(t: llm::SchemaModel) -> JsonModel {
    JsonModel::object().with("type"@, JsonModel::Str("function"@)).with(
        "function"@,
        JsonModel::object().with("name"@, JsonModel::Str(t.name)).with(
            "description"@,
            JsonModel::Str(t.description),
        ).with("parameters"@, t.input_schema),
    )
}

/// How a tool is advertised.
pub fn encode_tool(t: &ToolSchema) -> (r: Json)
    ensures
        r@ == tool_json(llm::schema_of(*t)),
{
    Json::Object(
        JsonObject::new().with("type", Json::string("function")).with(
            "function",
            Json::Object(
                JsonObject::new().with("name", Json::string(t.name)).with(
                    "description",
                    Json::string(t.description),
                ).with("parameters", t.input_schema.clone()),
            ),
        ),
    )
}

/// The text of all text blocks. Reasoning is not replayed.
pub open spec fn joined_text(bs: Seq<ContentModel>) -> Seq<char>
    decreases bs.len(),
{
    if bs.len() == 0 {
        Seq::empty()
    } else {
        match bs.last() {
            ContentModel::Text { text } => joined_text(bs.drop_last()) + text,
            _ => joined_text(bs.drop_last()),
        }
    }
}

/// One tool call; its arguments go as JSON text.
pub open spec fn call_json(id: Seq<char>, name: Seq<char>, input: JsonModel) -> JsonModel {
    JsonModel::object().with("id"@, JsonModel::Str(id)).with(
        "type"@,
        JsonModel::Str("function"@),
    ).with(
        "function"@,
        JsonModel::object().with("name"@, JsonModel::Str(name)).with(
            "arguments"@,
            JsonModel::Str(crate::json::json_text(input)),
        ),
    )
}

/// The tool calls among the blocks.
pub open spec fn calls_json(bs: Seq<ContentModel>) -> Seq<JsonModel>
    decreases bs.len(),
{
    if bs.len() == 0 {
        Seq::empty()
    } else {
        match bs.last() {
            ContentModel::ToolCall { id, name, input } => calls_json(bs.drop_last()).push(
                call_json(id, name, input),
            ),
            _ => calls_json(bs.drop_last()),
        }
    }
}

/// How a message is sent. An assistant turn carries a content key even where it
/// only calls tools.
pub open spec fn message_json(m: MessageModel) -> JsonModel {
    match m {
        MessageModel::User { content } => JsonModel::object().with(
            "role"@,
            JsonModel::Str("user"@),
        ).with("content"@, JsonModel::Str(content)),
        MessageModel::Assistant { content, .. } => {
            let said = joined_text(content);
            llm::with_opt(
                JsonModel::object().with("role"@, JsonModel::Str("assistant"@)).with(
                    "content"@,
                    if said.len() == 0 {
                        JsonModel::Null
                    } else {
                        JsonModel::Str(said)
                    },
                ),
                "tool_calls"@,
                if calls_json(content).len() > 0 {
                    Some(JsonModel::Array(calls_json(content)))
                } else {
                    None
                },
            )
        },
        MessageModel::ToolResult { tool_call_id, content, .. } => JsonModel::object().with(
            "role"@,
            JsonModel::Str("tool"@),
        ).with("tool_call_id"@, JsonModel::Str(tool_call_id)).with(
            "content"@,
            JsonModel::Str(content),
        ),
    }
}

/// How a message is sent.
pub fn encode_message(m: &Message) -> (r: Json)
    ensures
        r@ == message_json(m@),
{
    match m {
        Message::User { content } => Json::Object(
            JsonObject::new().with("role", Json::string("user")).with(
                "content",
                Json::string(content.as_str()),
            ),
        ),
        Message::Assistant { content, .. } => {
            let ghost all = types::contents(content@);
            let mut said = String::new();
            let mut calls: Vec<Json> = Vec::new();
            let mut i: usize = 0;
            assert(all.take(0) =~= Seq::empty());
            assert(crate::json::models(calls@) =~= Seq::empty());
            while i < content.len()
                invariant
                    i <= content@.len(),
                    all == types::contents(content@),
                    said@ == joined_text(all.take(i as int)),
                    crate::json::models(calls@) == calls_json(all.take(i as int)),
                decreases content@.len() - i,
            {
                assert(all.take(i + 1).drop_last() =~= all.take(i as int));
                assert(all.take(i + 1).last() == content@[i as int]@);
                let ghost before = calls@;
                match &content[i] {
                    ContentBlock::Text { text } => said.push_str(text.as_str()),
                    ContentBlock::Thinking { .. } => {},
                    ContentBlock::ToolCall { id, name, input } => {
                        let arguments = input.to_text();
                        calls.push(
                            Json::Object(
                                JsonObject::new().with("id", Json::string(id.as_str())).with(
                                    "type",
                                    Json::string("function"),
                                ).with(
                                    "function",
                                    Json::Object(
                                        JsonObject::new().with(
                                            "name",
                                            Json::string(name.as_str()),
                                        ).with("arguments", Json::Str(arguments)),
                                    ),
                                ),
                            ),
                        );
                        assert(crate::json::models(calls@) =~= crate::json::models(before).push(
                            call_json(id@, name@, input@),
                        ));
                    },
                }
                i += 1;
            }
            assert(all.take(i as int) =~= all);
            let content_value = if said.as_str().is_empty() {
                Json::Null
            } else {
                Json::Str(said)
            };
            let mut msg = JsonObject::new().with("role", Json::string("assistant")).with(
                "content",
                content_value,
            );
            if calls.len() > 0 {
                msg = msg.with("tool_calls", Json::array(calls));
            }
            Json::Object(msg)
        },
        Message::ToolResult { tool_call_id, content, .. } => Json::Object(
            JsonObject::new().with("role", Json::string("tool")).with(
                "tool_call_id",
                Json::string(tool_call_id.as_str()),
            ).with("content", Json::string(content.as_str())),
        ),
    }
}

/// The text of an answer is what its text blocks hold, one behind the other, and
/// nothing else.
pub proof fn law_joined_text(bs: Seq<ContentModel>)
    ensures
        joined_text(bs) == bs.flat_map(
            |b: ContentModel|
                match b {
                    ContentModel::Text { text } => text,
                    _ => Seq::<char>::empty(),
                },
        ),
    decreases bs.len(),
{
    let f = |b: ContentModel|
        match b {
            ContentModel::Text { text } => text,
            _ => Seq::<char>::empty(),
        };
    if bs.len() == 0 {
        assert(bs.map_values(f) =~= Seq::empty());
    } else {
        law_joined_text(bs.drop_last());
        text::lemma_flat_map_last(bs, f);
        assert(joined_text(bs) =~= joined_text(bs.drop_last()) + f(bs.last()));
    }
}

/// The keys differ from each other.
proof fn lemma_message_keys()
    ensures
        "role"@ != "content"@,
        "role"@ != "tool_calls"@,
        "role"@ != "tool_call_id"@,
        "role"@ != "id"@,
        "role"@ != "type"@,
        "role"@ != "function"@,
        "role"@ != "name"@,
        "role"@ != "arguments"@,
        "content"@ != "tool_calls"@,
        "content"@ != "tool_call_id"@,
        "content"@ != "id"@,
        "content"@ != "type"@,
        "content"@ != "function"@,
        "content"@ != "name"@,
        "content"@ != "arguments"@,
        "tool_calls"@ != "tool_call_id"@,
        "tool_calls"@ != "id"@,
        "tool_calls"@ != "type"@,
        "tool_calls"@ != "function"@,
        "tool_calls"@ != "name"@,
        "tool_calls"@ != "arguments"@,
        "tool_call_id"@ != "id"@,
        "tool_call_id"@ != "type"@,
        "tool_call_id"@ != "function"@,
        "tool_call_id"@ != "name"@,
        "tool_call_id"@ != "arguments"@,
        "id"@ != "type"@,
        "id"@ != "function"@,
        "id"@ != "name"@,
        "id"@ != "arguments"@,
        "type"@ != "function"@,
        "type"@ != "name"@,
        "type"@ != "arguments"@,
        "function"@ != "name"@,
        "function"@ != "arguments"@,
        "name"@ != "arguments"@,
{
    reveal_strlit("role");
    reveal_strlit("content");
    reveal_strlit("tool_calls");
    reveal_strlit("tool_call_id");
    reveal_strlit("id");
    reveal_strlit("type");
    reveal_strlit("function");
    reveal_strlit("name");
    reveal_strlit("arguments");
    assert("role"@.len() == 4);
    assert("content"@.len() == 7);
    assert("tool_calls"@.len() == 10);
    assert("tool_call_id"@.len() == 12);
    assert("id"@.len() == 2);
    assert("type"@.len() == 4);
    assert("function"@.len() == 8);
    assert("name"@.len() == 4);
    assert("arguments"@.len() == 9);
    assert("role"@[0] == 'r' && "type"@[0] == 't');
    assert("role"@[0] == 'r' && "name"@[0] == 'n');
    assert("type"@[0] == 't' && "name"@[0] == 'n');
}

/// The tool calls of a message, sent one by one: `items` are those of `calls`, in
/// order, each with its id, its name and its arguments as JSON text.
pub open spec fn carries_calls(items: Seq<JsonModel>, calls: Seq<ContentModel>) -> bool {
    &&& items.len() == calls.len()
    &&& forall|k: int|
        0 <= k < calls.len() ==> {
            let item = #[trigger] items[k];
            &&& calls[k] matches ContentModel::ToolCall { id, name, input }
            &&& item.get("id"@) == Some(JsonModel::Str(id))
            &&& item.get("type"@) == Some(JsonModel::Str("function"@))
            &&& item.get("function"@) matches Some(f) && f.get("name"@) == Some(
                JsonModel::Str(name),
            ) && f.get("arguments"@) == Some(JsonModel::Str(crate::json::json_text(input)))
        }
}

proof fn lemma_calls_json(bs: Seq<ContentModel>)
    ensures
        carries_calls(calls_json(bs), bs.filter(|b: ContentModel| b is ToolCall)),
    decreases bs.len(),
{
    broadcast use crate::json::lemma_get_with;

    reveal(Seq::filter);
    lemma_message_keys();
    let calls = bs.filter(|b: ContentModel| b is ToolCall);
    if bs.len() > 0 {
        lemma_calls_json(bs.drop_last());
        let front = bs.drop_last().filter(|b: ContentModel| b is ToolCall);
        assert forall|k: int| 0 <= k < calls.len() implies {
            let item = #[trigger] calls_json(bs)[k];
            &&& calls[k] matches ContentModel::ToolCall { id, name, input }
            &&& item.get("id"@) == Some(JsonModel::Str(id))
            &&& item.get("type"@) == Some(JsonModel::Str("function"@))
            &&& item.get("function"@) matches Some(f) && f.get("name"@) == Some(
                JsonModel::Str(name),
            ) && f.get("arguments"@) == Some(JsonModel::Str(crate::json::json_text(input)))
        } by {
            if k < front.len() {
                assert(calls[k] == front[k]);
                assert(calls_json(bs)[k] == calls_json(bs.drop_last())[k]);
            }
        }
    }
}

/// An answer is sent whole: with all its text, and with every tool call that it
/// makes, in order, whatever else stands beside them. Where it makes none, no calls
/// are sent; where it says nothing, its content is null.
pub proof fn law_answer_is_sent_whole(m: MessageModel)
    requires
        m is Assistant,
    ensures
        ({
            let content = m->Assistant_content;
            let calls = content.filter(|b: ContentModel| b is ToolCall);
            let said = content.flat_map(
                |b: ContentModel|
                    match b {
                        ContentModel::Text { text } => text,
                        _ => Seq::<char>::empty(),
                    },
            );
            let sent = message_json(m);
            &&& sent.get("role"@) == Some(JsonModel::Str("assistant"@))
            &&& sent.get("content"@) == Some(
                if said.len() == 0 {
                    JsonModel::Null
                } else {
                    JsonModel::Str(said)
                },
            )
            &&& calls.len() == 0 ==> sent.get("tool_calls"@) is None
            &&& calls.len() > 0 ==> (sent.get("tool_calls"@) matches Some(JsonModel::Array(items))
                && carries_calls(items, calls))
            &&& forall|key: Seq<char>|
                key != "role"@ && key != "content"@ && key != "tool_calls"@
                    ==> #[trigger] sent.get(key) is None
        }),
{
    broadcast use crate::json::lemma_get_with;

    lemma_message_keys();
    law_joined_text(m->Assistant_content);
    lemma_calls_json(m->Assistant_content);
}

/// What the user said and what a tool answered are sent as they are, under their
/// role, and the answer of a tool under the id of its call.
pub proof fn law_other_messages_are_sent_as_they_are(m: MessageModel)
    requires
        !(m is Assistant),
    ensures
        match m {
            MessageModel::User { content } => {
                &&& message_json(m).get("role"@) == Some(JsonModel::Str("user"@))
                &&& message_json(m).get("content"@) == Some(JsonModel::Str(content))
                &&& message_json(m).get("tool_call_id"@) is None
            },
            MessageModel::ToolResult { tool_call_id, content, .. } => {
                &&& message_json(m).get("role"@) == Some(JsonModel::Str("tool"@))
                &&& message_json(m).get("content"@) == Some(JsonModel::Str(content))
                &&& message_json(m).get("tool_call_id"@) == Some(JsonModel::Str(tool_call_id))
            },
            _ => true,
        },
{
    broadcast use crate::json::lemma_get_with;

    lemma_message_keys();
}

/// `sent` makes a tool call under this id.
pub open spec fn sends_call(sent: JsonModel, id: Seq<char>) -> bool {
    sent.get("tool_calls"@) matches Some(JsonModel::Array(items)) && exists|k: int|
        0 <= k < items.len() && (#[trigger] items[k]).get("id"@) == Some(JsonModel::Str(id))
}

/// In a request, the answer of every tool refers to a call that a message before it
/// makes, where it does so in the conversation.
pub proof fn law_sent_results_have_their_calls(ms: Seq<MessageModel>, j: int)
    requires
        crate::compact::results_follow_calls(ms),
        0 <= j < ms.len(),
        ms[j] is ToolResult,
    ensures
        exists|i: int|
            0 <= i < j && sends_call(
                #[trigger] message_json(ms[i]),
                ms[j]->ToolResult_tool_call_id,
            ),
{
    let i = choose|i: int| crate::compact::answers(ms, i, j);
    assert(crate::compact::answers(ms, i, j));
    let id = ms[j]->ToolResult_tool_call_id;
    let content = ms[i]->Assistant_content;
    let b = choose|b: int|
        0 <= b < content.len() && crate::compact::calls_under(#[trigger] content[b], id);
    let calls = content.filter(|b: ContentModel| b is ToolCall);
    content.lemma_filter_contains(|b: ContentModel| b is ToolCall, b);
    assert(calls.contains(content[b]));
    let k = choose|k: int| 0 <= k < calls.len() && calls[k] == content[b];
    law_answer_is_sent_whole(ms[i]);
    let items = message_json(ms[i]).get("tool_calls"@)->0->Array_0;
    assert(items[k].get("id"@) == Some(JsonModel::Str(id)));
    assert(sends_call(message_json(ms[i]), id));
}

/// The keys differ from each other.
proof fn lemma_body_keys()
    ensures
        "model"@ != "messages"@,
        "model"@ != "max_tokens"@,
        "model"@ != "stream"@,
        "model"@ != "stream_options"@,
        "model"@ != "temperature"@,
        "model"@ != "tools"@,
        "model"@ != "include_usage"@,
        "model"@ != "name"@,
        "model"@ != "description"@,
        "model"@ != "parameters"@,
        "model"@ != "role"@,
        "model"@ != "content"@,
        "model"@ != "type"@,
        "model"@ != "function"@,
        "messages"@ != "max_tokens"@,
        "messages"@ != "stream"@,
        "messages"@ != "stream_options"@,
        "messages"@ != "temperature"@,
        "messages"@ != "tools"@,
        "messages"@ != "include_usage"@,
        "messages"@ != "name"@,
        "messages"@ != "description"@,
        "messages"@ != "parameters"@,
        "messages"@ != "role"@,
        "messages"@ != "content"@,
        "messages"@ != "type"@,
        "messages"@ != "function"@,
        "max_tokens"@ != "stream"@,
        "max_tokens"@ != "stream_options"@,
        "max_tokens"@ != "temperature"@,
        "max_tokens"@ != "tools"@,
        "max_tokens"@ != "include_usage"@,
        "max_tokens"@ != "name"@,
        "max_tokens"@ != "description"@,
        "max_tokens"@ != "parameters"@,
        "max_tokens"@ != "role"@,
        "max_tokens"@ != "content"@,
        "max_tokens"@ != "type"@,
        "max_tokens"@ != "function"@,
        "stream"@ != "stream_options"@,
        "stream"@ != "temperature"@,
        "stream"@ != "tools"@,
        "stream"@ != "include_usage"@,
        "stream"@ != "name"@,
        "stream"@ != "description"@,
        "stream"@ != "parameters"@,
        "stream"@ != "role"@,
        "stream"@ != "content"@,
        "stream"@ != "type"@,
        "stream"@ != "function"@,
        "stream_options"@ != "temperature"@,
        "stream_options"@ != "tools"@,
        "stream_options"@ != "include_usage"@,
        "stream_options"@ != "name"@,
        "stream_options"@ != "description"@,
        "stream_options"@ != "parameters"@,
        "stream_options"@ != "role"@,
        "stream_options"@ != "content"@,
        "stream_options"@ != "type"@,
        "stream_options"@ != "function"@,
        "temperature"@ != "tools"@,
        "temperature"@ != "include_usage"@,
        "temperature"@ != "name"@,
        "temperature"@ != "description"@,
        "temperature"@ != "parameters"@,
        "temperature"@ != "role"@,
        "temperature"@ != "content"@,
        "temperature"@ != "type"@,
        "temperature"@ != "function"@,
        "tools"@ != "include_usage"@,
        "tools"@ != "name"@,
        "tools"@ != "description"@,
        "tools"@ != "parameters"@,
        "tools"@ != "role"@,
        "tools"@ != "content"@,
        "tools"@ != "type"@,
        "tools"@ != "function"@,
        "include_usage"@ != "name"@,
        "include_usage"@ != "description"@,
        "include_usage"@ != "parameters"@,
        "include_usage"@ != "role"@,
        "include_usage"@ != "content"@,
        "include_usage"@ != "type"@,
        "include_usage"@ != "function"@,
        "name"@ != "description"@,
        "name"@ != "parameters"@,
        "name"@ != "role"@,
        "name"@ != "content"@,
        "name"@ != "type"@,
        "name"@ != "function"@,
        "description"@ != "parameters"@,
        "description"@ != "role"@,
        "description"@ != "content"@,
        "description"@ != "type"@,
        "description"@ != "function"@,
        "parameters"@ != "role"@,
        "parameters"@ != "content"@,
        "parameters"@ != "type"@,
        "parameters"@ != "function"@,
        "role"@ != "content"@,
        "role"@ != "type"@,
        "role"@ != "function"@,
        "content"@ != "type"@,
        "content"@ != "function"@,
        "type"@ != "function"@,
{
    reveal_strlit("model");
    reveal_strlit("messages");
    reveal_strlit("max_tokens");
    reveal_strlit("stream");
    reveal_strlit("stream_options");
    reveal_strlit("temperature");
    reveal_strlit("tools");
    reveal_strlit("include_usage");
    reveal_strlit("name");
    reveal_strlit("description");
    reveal_strlit("parameters");
    reveal_strlit("role");
    reveal_strlit("content");
    reveal_strlit("type");
    reveal_strlit("function");
    assert("model"@.len() == 5);
    assert("messages"@.len() == 8);
    assert("max_tokens"@.len() == 10);
    assert("stream"@.len() == 6);
    assert("stream_options"@.len() == 14);
    assert("temperature"@.len() == 11);
    assert("tools"@.len() == 5);
    assert("include_usage"@.len() == 13);
    assert("name"@.len() == 4);
    assert("description"@.len() == 11);
    assert("parameters"@.len() == 10);
    assert("role"@.len() == 4);
    assert("content"@.len() == 7);
    assert("type"@.len() == 4);
    assert("function"@.len() == 8);
    assert("model"@[0] == 'm' && "tools"@[0] == 't');
    assert("messages"@[0] == 'm' && "function"@[0] == 'f');
    assert("max_tokens"@[0] == 'm' && "parameters"@[0] == 'p');
    assert("temperature"@[0] == 't' && "description"@[0] == 'd');
    assert("name"@[0] == 'n' && "role"@[0] == 'r');
    assert("name"@[0] == 'n' && "type"@[0] == 't');
    assert("role"@[0] == 'r' && "type"@[0] == 't');
}

/// A request holds the whole conversation: the system prompt first and behind it
/// one entry for each message, in order. It names the model and the bound on the
/// answer, and asks for a stream.
pub proof fn law_whole_conversation_is_sent(
    model: Seq<char>,
    system: Seq<char>,
    messages: Seq<MessageModel>,
    tools: Seq<llm::SchemaModel>,
    max_tokens: u32,
    temperature: Option<JsonModel>,
    stream_usage: bool,
)
    ensures
        ({
            let body = body_of(
                model,
                system,
                messages,
                tools,
                max_tokens,
                temperature,
                stream_usage,
            );
            &&& body.get("model"@) == Some(JsonModel::Str(model))
            &&& body.get("max_tokens"@) == Some(JsonModel::integer(max_tokens as int))
            &&& body.get("stream"@) == Some(JsonModel::Bool(true))
            &&& body.get("temperature"@) == temperature
            &&& body.get("messages"@) matches Some(JsonModel::Array(sent))
            &&& sent.len() == messages.len() + 1
            &&& sent[0].get("role"@) == Some(JsonModel::Str("system"@))
            &&& sent[0].get("content"@) == Some(JsonModel::Str(system))
            &&& forall|i: int|
                0 <= i < messages.len() ==> sent[i + 1] == #[trigger] message_json(messages[i])
        }),
{
    broadcast use crate::json::lemma_get_with;

    lemma_body_keys();
}

/// Every tool is advertised, in order, by its name, its description and the schema
/// of its input; without tools the request says nothing of them.
pub proof fn law_every_tool_is_advertised(
    model: Seq<char>,
    system: Seq<char>,
    messages: Seq<MessageModel>,
    tools: Seq<llm::SchemaModel>,
    max_tokens: u32,
    temperature: Option<JsonModel>,
    stream_usage: bool,
)
    ensures
        ({
            let sent = body_of(
                model,
                system,
                messages,
                tools,
                max_tokens,
                temperature,
                stream_usage,
            ).get("tools"@);
            &&& tools.len() == 0 ==> sent is None
            &&& tools.len() > 0 ==> {
                &&& sent matches Some(JsonModel::Array(items))
                &&& items.len() == tools.len()
                &&& forall|i: int|
                    0 <= i < tools.len() ==> {
                        let item = #[trigger] items[i];
                        &&& item.get("type"@) == Some(JsonModel::Str("function"@))
                        &&& item.get("function"@) matches Some(f)
                        &&& f.get("name"@) == Some(JsonModel::Str(tools[i].name))
                        &&& f.get("description"@) == Some(JsonModel::Str(tools[i].description))
                        &&& f.get("parameters"@) == Some(tools[i].input_schema)
                    }
            }
        }),
{
    broadcast use crate::json::lemma_get_with;

    lemma_body_keys();
}

/// What an error text is cut to: all characters that start before byte `max`,
/// with an ellipsis where something is left out.
pub open spec fn truncated(s: Seq<char>, max: int) -> Seq<char> {
    if text::byte_len(s) <= max {
        s
    } else {
        s.take(text::starting_before(s, max)).push('…')
    }
}

/// `s` cut to about `max` bytes, with an ellipsis where something is left out.
pub fn truncate(s: &str, max: usize) -> (r: String)
    ensures
        r@ == truncated(s@, max as int),
{
    if text::byte_count(s) <= max {
        return s.to_owned();
    }
    let cs = text::chars_of(s);
    let n = text::count_starting_before(cs.as_slice(), max);
    let mut out = text::slice_of(cs.as_slice(), 0, n);
    out.push('…');
    assert(out@ =~= s@.take(n as int).push('…'));
    out
}

/// The error for a response with a failing status: what the server said, cut.
pub fn status_error(
    status: u16,
    status_text: &str,
    retry_after: Option<&str>,
    message: &str,
) -> (r: ApiError)
    ensures
        r.status == Some(status),
        r.message@ == status_text@ + ": "@ + truncated(message@, 500),
        llm::is_asked_wait(retry_after, r.retry_after),
{
    let mut m = status_text.to_owned();
    m.push_str(": ");
    let cut = truncate(message, 500);
    m.push_str(cut.as_str());
    ApiError { status: Some(status), message: m, retry_after: llm::parse_retry_after(retry_after) }
}

/// The tool call that is being streamed: its index and its id.
pub type OpenCall = Option<(u64, Option<Seq<char>>)>;

/// The index of a tool-call fragment.
pub open spec fn call_index(call: JsonModel) -> u64 {
    call.u64_at("index"@)
}

/// A member of the fragment's function, where it is a string that is not empty.
pub open spec fn function_str(call: JsonModel, key: Seq<char>) -> Option<Seq<char>> {
    match call.get("function"@) {
        Some(f) => config::nonempty(f.str_at(key)),
        None => None,
    }
}

/// A fragment opens a new call when its index moves, when it carries a different
/// id, or when it names a function without any id while a call is open.
pub open spec fn starts_new(open: OpenCall, call: JsonModel) -> bool {
    let id = call.str_at("id"@);
    match open {
        None => true,
        Some((open_index, open_id)) => {
            ||| open_index != call_index(call)
            ||| id is Some && id != open_id
            ||| id is None && function_str(call, "name"@) is Some
        },
    }
}

/// The call that is open after a fragment.
pub open spec fn call_open(open: OpenCall, call: JsonModel) -> OpenCall {
    if starts_new(open, call) {
        Some((call_index(call), call.str_at("id"@)))
    } else {
        open
    }
}

/// The id under which a fragment's call is announced.
pub open spec fn announced_id(call: JsonModel) -> Seq<char> {
    match call.str_at("id"@) {
        Some(id) => id,
        None => "call_"@ + text::decimal(call_index(call) as nat),
    }
}

/// The name under which a fragment's call is announced.
pub open spec fn announced_name(call: JsonModel) -> Seq<char> {
    match function_str(call, "name"@) {
        Some(n) => n,
        None => Seq::empty(),
    }
}

/// How a call is closed and another opened.
pub open spec fn opening_events(open: OpenCall, call: JsonModel) -> Seq<StreamModel> {
    if starts_new(open, call) {
        (if open is Some {
            seq![StreamModel::ToolCallEnd]
        } else {
            Seq::empty()
        }).push(
            StreamModel::ToolCallStart { id: announced_id(call), name: announced_name(call) },
        )
    } else {
        Seq::empty()
    }
}

/// What one fragment says.
pub open spec fn call_events(open: OpenCall, call: JsonModel) -> Seq<StreamModel> {
    match function_str(call, "arguments"@) {
        Some(args) => opening_events(open, call).push(StreamModel::ToolCallDelta(args)),
        None => opening_events(open, call),
    }
}

/// The call that is open after several fragments.
pub open spec fn calls_open(open: OpenCall, calls: Seq<JsonModel>) -> OpenCall
    decreases calls.len(),
{
    if calls.len() == 0 {
        open
    } else {
        call_open(calls_open(open, calls.drop_last()), calls.last())
    }
}

/// What several fragments say.
pub open spec fn calls_events(open: OpenCall, calls: Seq<JsonModel>) -> Seq<StreamModel>
    decreases calls.len(),
{
    if calls.len() == 0 {
        Seq::empty()
    } else {
        calls_events(open, calls.drop_last()) + call_events(
            calls_open(open, calls.drop_last()),
            calls.last(),
        )
    }
}

/// The message of an error that a chunk reports.
pub open spec fn chunk_error(chunk: JsonModel) -> Option<Seq<char>> {
    match chunk.get("error"@) {
        Some(err) => Some(
            match err.str_at("message"@) {
                Some(m) => m,
                None => "provider returned an error"@,
            },
        ),
        None => None,
    }
}

/// The token counts that a chunk reports.
pub open spec fn usage_events(chunk: JsonModel) -> Seq<StreamModel> {
    match chunk.get("usage"@) {
        Some(u) if !(u is Null) => seq![StreamModel::Usage(usage_of(u))],
        _ => Seq::empty(),
    }
}

/// The first choice of a chunk.
pub open spec fn choice_of(chunk: JsonModel) -> Option<JsonModel> {
    match chunk.get("choices"@) {
        Some(c) => c.elem(0),
        None => None,
    }
}

/// The text under `key` of a delta, where there is any.
pub open spec fn delta_str(delta: JsonModel, key: Seq<char>) -> Option<Seq<char>> {
    config::nonempty(delta.str_at(key))
}

/// The text and the reasoning of a delta.
pub open spec fn delta_text_events(delta: JsonModel) -> Seq<StreamModel> {
    (match delta_str(delta, "content"@) {
        Some(t) => seq![StreamModel::TextDelta(t)],
        None => Seq::empty(),
    }) + (match delta_str(delta, "reasoning_content"@) {
        Some(t) => seq![StreamModel::ThinkingDelta(t)],
        None => Seq::empty(),
    })
}

/// The tool-call fragments of a delta.
pub open spec fn delta_calls(delta: JsonModel) -> Seq<JsonModel> {
    match delta.get("tool_calls"@) {
        Some(v) => match v.as_array() {
            Some(calls) => calls,
            None => Seq::empty(),
        },
        None => Seq::empty(),
    }
}

/// The delta of a chunk's first choice.
pub open spec fn delta_of(chunk: JsonModel) -> Option<JsonModel> {
    match choice_of(chunk) {
        Some(choice) => choice.get("delta"@),
        None => None,
    }
}

/// What a chunk without an error says.
pub open spec fn chunk_events(open: OpenCall, chunk: JsonModel) -> Seq<StreamModel> {
    match delta_of(chunk) {
        Some(delta) => usage_events(chunk) + delta_text_events(delta) + calls_events(
            open,
            delta_calls(delta),
        ),
        None => usage_events(chunk),
    }
}

/// The call that is open after a chunk without an error.
pub open spec fn chunk_open(open: OpenCall, chunk: JsonModel) -> OpenCall {
    match delta_of(chunk) {
        Some(delta) => calls_open(open, delta_calls(delta)),
        None => open,
    }
}

/// Why the response ends, as far as a chunk says.
pub open spec fn chunk_stop(stop: StopReason, chunk: JsonModel) -> StopReason {
    match choice_of(chunk) {
        Some(choice) => match choice.str_at("finish_reason"@) {
            Some(reason) => stop_of(reason),
            None => stop,
        },
        None => stop,
    }
}

/// What is said at the end of a stream.
pub open spec fn finish_events(open: OpenCall, stop: StopReason) -> Seq<StreamModel> {
    (if open is Some {
        seq![StreamModel::ToolCallEnd]
    } else {
        Seq::empty()
    }).push(StreamModel::Done(stop))
}

/// The reading of one streamed answer.
///
/// Tool calls come in fragments: the name once, the arguments as pieces of JSON
/// text. Fragments belong together by `index`; servers that send no index are
/// told apart by `id`, or send one whole call per fragment.
pub struct Decoder {
    open_tool: Option<(u64, Option<String>)>,
    stop: StopReason,
    done: bool,
}

impl Decoder {
    /// The tool call that is being streamed.
    pub closed spec fn open(&self) -> OpenCall {
        match self.open_tool {
            Some((index, id)) => Some((index, text::opt(id))),
            None => None,
        }
    }

    /// Why the response ends, as far as is known.
    pub closed spec fn stop(&self) -> StopReason {
        self.stop
    }

    /// The stream has said that nothing follows.
    pub closed spec fn ended(&self) -> bool {
        self.done
    }

    pub fn new() -> (r: Decoder)
        ensures
            r.open() is None,
            r.stop() == StopReason::Stop,
            !r.ended(),
    {
        Decoder { open_tool: None, stop: StopReason::Stop, done: false }
    }

    /// Whether the stream has said that nothing follows.
    pub fn is_done(&self) -> (r: bool)
        ensures
            r == self.ended(),
    {
        self.done
    }

    /// Reads the data of one event. The end mark ends the stream; what is not
    /// JSON is passed over.
    pub fn feed(&mut self, data: &str) -> (r: Result<Vec<StreamEvent>, ApiError>)
        ensures
            final(self).ended() == (old(self).ended() || data@ == "[DONE]"@),
            match r {
                Ok(es) => if data@ == "[DONE]"@ {
                    &&& types::events(es@) == Seq::<StreamModel>::empty()
                    &&& final(self).open() == old(self).open()
                    &&& final(self).stop() == old(self).stop()
                } else {
                    match crate::json::json_parsed(data@) {
                        None => {
                            &&& types::events(es@) == Seq::<StreamModel>::empty()
                            &&& final(self).open() == old(self).open()
                            &&& final(self).stop() == old(self).stop()
                        },
                        Some(chunk) => {
                            &&& chunk_error(chunk) is None
                            &&& types::events(es@) == chunk_events(old(self).open(), chunk)
                            &&& final(self).open() == chunk_open(old(self).open(), chunk)
                            &&& final(self).stop() == chunk_stop(old(self).stop(), chunk)
                        },
                    }
                },
                Err(e) => {
                    &&& data@ != "[DONE]"@
                    &&& *final(self) == *old(self)
                    &&& match crate::json::json_parsed(data@) {
                        Some(chunk) => match chunk_error(chunk) {
                            Some(m) => e.in_stream(m),
                            None => false,
                        },
                        None => false,
                    }
                },
            },
    {
        if text::str_eq(data, "[DONE]") {
            self.done = true;
            let none: Vec<StreamEvent> = Vec::new();
            assert(types::events(none@) =~= Seq::<StreamModel>::empty());
            return Ok(none);
        }
        match crate::json::parse(data) {
            Some(chunk) => self.chunk(&chunk),
            None => {
                let none: Vec<StreamEvent> = Vec::new();
                assert(types::events(none@) =~= Seq::<StreamModel>::empty());
                Ok(none)
            },
        }
    }

    /// Reads one chunk of the answer.
    pub fn chunk(&mut self, chunk: &Json) -> (r: Result<Vec<StreamEvent>, ApiError>)
        ensures
            final(self).ended() == old(self).ended(),
            match r {
                Ok(es) => {
                    &&& chunk_error(chunk@) is None
                    &&& types::events(es@) == chunk_events(old(self).open(), chunk@)
                    &&& final(self).open() == chunk_open(old(self).open(), chunk@)
                    &&& final(self).stop() == chunk_stop(old(self).stop(), chunk@)
                },
                Err(e) => match chunk_error(chunk@) {
                    Some(m) => e.in_stream(m) && *final(self) == *old(self),
                    None => false,
                },
            },
    {
        if let Some(err) = chunk.get("error") {
            let message = match err.str_at("message") {
                Some(m) => m.to_owned(),
                None => "provider returned an error".to_owned(),
            };
            return Err(ApiError { status: None, message, retry_after: None });
        }
        let mut out: Vec<StreamEvent> = Vec::new();
        assert(types::events(out@) =~= Seq::<StreamModel>::empty());
        if let Some(usage) = chunk.get("usage") {
            if !usage.is_null() {
                llm::emit(&mut out, StreamEvent::Usage(decode_usage(usage)));
            }
        }
        assert(types::events(out@) =~= usage_events(chunk@));
        let choice = match chunk.get("choices") {
            Some(c) => c.elem(0),
            None => None,
        };
        match choice {
            None => {},
            Some(choice) => {
                if let Some(delta) = choice.get("delta") {
                    let ghost before = types::events(out@);
                    if let Some(t) = delta.str_at("content") {
                        if !t.is_empty() {
                            llm::emit(&mut out, StreamEvent::TextDelta(t.to_owned()));
                        }
                    }
                    if let Some(t) = delta.str_at("reasoning_content") {
                        if !t.is_empty() {
                            llm::emit(&mut out, StreamEvent::ThinkingDelta(t.to_owned()));
                        }
                    }
                    assert(types::events(out@) =~= before + delta_text_events(delta@));
                    let ghost spoken = types::events(out@);
                    match delta.get("tool_calls") {
                        Some(v) => match v.as_array() {
                            Some(calls) => self.calls(calls, &mut out),
                            None => {
                                assert(types::events(out@) =~= spoken + calls_events(
                                    self.open(),
                                    Seq::empty(),
                                ));
                            },
                        },
                        None => {
                            assert(types::events(out@) =~= spoken + calls_events(
                                self.open(),
                                Seq::empty(),
                            ));
                        },
                    }
                }
                if let Some(reason) = choice.str_at("finish_reason") {
                    self.stop = decode_stop(reason);
                }
            },
        }
        Ok(out)
    }

    fn calls(&mut self, calls: &Vec<Json>, out: &mut Vec<StreamEvent>)
        ensures
            types::events(final(out)@) == types::events(old(out)@) + calls_events(
                old(self).open(),
                crate::json::models(calls@),
            ),
            final(self).open() == calls_open(old(self).open(), crate::json::models(calls@)),
            final(self).stop() == old(self).stop(),
            final(self).ended() == old(self).ended(),
    {
        let ghost all = crate::json::models(calls@);
        let ghost start = types::events(out@);
        let ghost open = self.open();
        let ghost stop = self.stop();
        let ghost ended = self.ended();
        let mut i: usize = 0;
        assert(all.take(0) =~= Seq::empty());
        assert(start + Seq::<StreamModel>::empty() =~= start);
        while i < calls.len()
            invariant
                i <= calls@.len(),
                all == crate::json::models(calls@),
                types::events(out@) == start + calls_events(open, all.take(i as int)),
                self.open() == calls_open(open, all.take(i as int)),
                self.stop() == stop,
                self.ended() == ended,
            decreases calls@.len() - i,
        {
            let ghost part = calls_events(open, all.take(i as int));
            assert(all.take(i + 1).drop_last() =~= all.take(i as int));
            assert(all.take(i + 1).last() == calls@[i as int]@);
            let ghost now = self.open();
            self.call(&calls[i], out);
            assert(start + part + call_events(now, calls@[i as int]@) =~= start + (part
                + call_events(now, calls@[i as int]@)));
            i += 1;
        }
        assert(all.take(i as int) =~= all);
    }

    fn call(&mut self, call: &Json, out: &mut Vec<StreamEvent>)
        ensures
            types::events(final(out)@) == types::events(old(out)@) + call_events(
                old(self).open(),
                call@,
            ),
            final(self).open() == call_open(old(self).open(), call@),
            final(self).stop() == old(self).stop(),
            final(self).ended() == old(self).ended(),
    {
        let ghost start = types::events(out@);
        let index = call.u64_at("index");
        let id = match call.str_at("id") {
            Some(s) => Some(s.to_owned()),
            None => None,
        };
        let function = call.get("function");
        let name = match function {
            Some(f) => nonempty_str(f.str_at("name")),
            None => None,
        };
        let starts = match &self.open_tool {
            None => true,
            Some((open_index, open_id)) => *open_index != index || (id.is_some() && !same_opt(
                &id,
                open_id,
            )) || (id.is_none() && name.is_some()),
        };
        assert(starts == starts_new(old(self).open(), call@));
        if starts {
            if self.open_tool.is_some() {
                llm::emit(out, StreamEvent::ToolCallEnd);
            }
            let announced = match &id {
                Some(s) => s.clone(),
                None => {
                    let mut s = "call_".to_owned();
                    let n = text::decimal_of(index);
                    s.push_str(n.as_str());
                    s
                },
            };
            let name = match name {
                Some(n) => n.to_owned(),
                None => String::new(),
            };
            llm::emit(out, StreamEvent::ToolCallStart { id: announced, name });
            self.open_tool = Some((index, id));
        }
        assert(types::events(out@) =~= start + opening_events(old(self).open(), call@));
        let args = match function {
            Some(f) => nonempty_str(f.str_at("arguments")),
            None => None,
        };
        if let Some(a) = args {
            llm::emit(out, StreamEvent::ToolCallDelta(a.to_owned()));
        }
        assert(types::events(out@) =~= start + call_events(old(self).open(), call@));
    }

    /// What is said at the end of the stream.
    pub fn finish(&self) -> (r: Vec<StreamEvent>)
        ensures
            types::events(r@) == finish_events(self.open(), self.stop()),
    {
        let mut out: Vec<StreamEvent> = Vec::new();
        if self.open_tool.is_some() {
            llm::emit(&mut out, StreamEvent::ToolCallEnd);
        }
        llm::emit(&mut out, StreamEvent::Done(self.stop));
        assert(types::events(out@) =~= finish_events(self.open(), self.stop()));
        out
    }
}

/// What the chunks of one answer say.
pub open spec fn stream_events(chunks: Seq<JsonModel>) -> Seq<StreamModel>
    decreases chunks.len(),
{
    if chunks.len() == 0 {
        Seq::empty()
    } else {
        stream_events(chunks.drop_last()) + chunk_events(
            stream_open(chunks.drop_last()),
            chunks.last(),
        )
    }
}

/// The call that is open after the chunks of one answer.
pub open spec fn stream_open(chunks: Seq<JsonModel>) -> OpenCall
    decreases chunks.len(),
{
    if chunks.len() == 0 {
        None
    } else {
        chunk_open(stream_open(chunks.drop_last()), chunks.last())
    }
}

proof fn lemma_call_nests(open: OpenCall, call: JsonModel)
    ensures
        llm::nesting(open is Some, call_events(open, call)) == Some(
            call_open(open, call) is Some,
        ),
{
    reveal_with_fuel(llm::nesting, 4);
    let start = StreamModel::ToolCallStart { id: announced_id(call), name: announced_name(call) };
    let opening = opening_events(open, call);
    if starts_new(open, call) {
        if open is Some {
            assert(opening.drop_last() =~= seq![StreamModel::ToolCallEnd]);
            assert(seq![StreamModel::ToolCallEnd].drop_last() =~= Seq::empty());
        } else {
            assert(opening.drop_last() =~= Seq::empty());
        }
    }
    assert(llm::nesting(open is Some, opening) == Some(call_open(open, call) is Some));
    if let Some(args) = function_str(call, "arguments"@) {
        assert(call_events(open, call).drop_last() =~= opening);
    }
}

proof fn lemma_calls_nest(open: OpenCall, calls: Seq<JsonModel>)
    ensures
        llm::nesting(open is Some, calls_events(open, calls)) == Some(
            calls_open(open, calls) is Some,
        ),
    decreases calls.len(),
{
    if calls.len() > 0 {
        lemma_calls_nest(open, calls.drop_last());
        let mid = calls_open(open, calls.drop_last());
        lemma_call_nests(mid, calls.last());
        llm::lemma_nesting_concat(
            open is Some,
            calls_events(open, calls.drop_last()),
            call_events(mid, calls.last()),
        );
    }
}

proof fn lemma_chunk_nests(open: OpenCall, chunk: JsonModel)
    ensures
        llm::nesting(open is Some, chunk_events(open, chunk)) == Some(
            chunk_open(open, chunk) is Some,
        ),
{
    reveal_with_fuel(llm::nesting, 3);
    let u = usage_events(chunk);
    if u.len() > 0 {
        assert(u.drop_last() =~= Seq::empty());
    }
    if let Some(delta) = delta_of(chunk) {
        let t = delta_text_events(delta);
        if t.len() > 0 {
            assert(t.drop_last().len() > 0 ==> t.drop_last().drop_last() =~= Seq::empty());
            assert(t.drop_last().len() == 0 ==> t.drop_last() =~= Seq::empty());
        }
        lemma_calls_nest(open, delta_calls(delta));
        llm::lemma_nesting_concat(open is Some, u, t);
        llm::lemma_nesting_concat(open is Some, u + t, calls_events(open, delta_calls(delta)));
    }
}

proof fn lemma_stream_nests(chunks: Seq<JsonModel>)
    ensures
        llm::nesting(false, stream_events(chunks)) == Some(stream_open(chunks) is Some),
    decreases chunks.len(),
{
    if chunks.len() > 0 {
        lemma_stream_nests(chunks.drop_last());
        let open = stream_open(chunks.drop_last());
        lemma_chunk_nests(open, chunks.last());
        llm::lemma_nesting_concat(
            false,
            stream_events(chunks.drop_last()),
            chunk_events(open, chunks.last()),
        );
    }
}

/// Whatever a server streams, the tool calls of the answer come one after the
/// other: each is ended before the next starts, arguments come only inside a
/// call, and none is left open at the end.
pub proof fn law_tool_calls_do_not_overlap(chunks: Seq<JsonModel>, stop: StopReason)
    ensures
        llm::nesting(false, stream_events(chunks) + finish_events(stream_open(chunks), stop))
            == Some(false),
{
    lemma_stream_nests(chunks);
    let open = stream_open(chunks);
    let end = finish_events(open, stop);
    reveal_with_fuel(llm::nesting, 3);
    if open is Some {
        assert(end.drop_last() =~= seq![StreamModel::ToolCallEnd]);
        assert(end.drop_last().drop_last() =~= Seq::empty());
    } else {
        assert(end.drop_last() =~= Seq::empty());
    }
    llm::lemma_nesting_concat(false, stream_events(chunks), end);
}

/// Two fragments with different ids are never taken for one call, whatever their
/// indices.
pub proof fn law_other_id_is_another_call(open: OpenCall, a: JsonModel, b: JsonModel)
    requires
        a.str_at("id"@) is Some,
        b.str_at("id"@) is Some,
        a.str_at("id"@) != b.str_at("id"@),
    ensures
        starts_new(call_open(open, a), b),
{
}

/// The optional members of a request body are there exactly where they are
/// wanted: the temperature where one is set, the request for token counts where
/// it is on, the tools where there are any.
pub proof fn law_optional_members(
    model: Seq<char>,
    system: Seq<char>,
    messages: Seq<MessageModel>,
    tools: Seq<llm::SchemaModel>,
    max_tokens: u32,
    temperature: Option<JsonModel>,
    stream_usage: bool,
)
    ensures
        ({
            let body = body_of(
                model,
                system,
                messages,
                tools,
                max_tokens,
                temperature,
                stream_usage,
            );
            &&& body.get("temperature"@) == temperature
            &&& body.get("stream_options"@) is Some == stream_usage
            &&& body.get("tools"@) is Some == (tools.len() > 0)
        }),
{
    reveal_strlit("model");
    reveal_strlit("messages");
    reveal_strlit("max_tokens");
    reveal_strlit("stream");
    reveal_strlit("stream_options");
    reveal_strlit("temperature");
    reveal_strlit("tools");
    let fixed = JsonModel::object().with("model"@, JsonModel::Str(model)).with(
        "messages"@,
        JsonModel::Array(seq![system_json(system)] + encoded(messages)),
    ).with("max_tokens"@, JsonModel::integer(max_tokens as int)).with(
        "stream"@,
        JsonModel::Bool(true),
    );
    assert("temperature"@[0] == 't' && "tools"@[0] == 't' && "temperature"@[1] == 'e'
        && "tools"@[1] == 'o');
    assert("stream"@.len() == 6 && "stream_options"@.len() == 14);
    assert("model"@[0] == 'm' && "messages"@[0] == 'm' && "max_tokens"@[0] == 'm' && "stream"@[0]
        == 's' && "stream_options"@[0] == 's');
    lemma_absent(fixed, model, system, messages, max_tokens, "temperature"@);
    lemma_absent(fixed, model, system, messages, max_tokens, "stream_options"@);
    lemma_absent(fixed, model, system, messages, max_tokens, "tools"@);
    let asked = if stream_usage {
        Some(JsonModel::object().with("include_usage"@, JsonModel::Bool(true)))
    } else {
        None
    };
    let b1 = llm::with_opt(fixed, "stream_options"@, asked);
    let b2 = llm::with_opt(b1, "temperature"@, temperature);
    llm::lemma_with_opt(fixed, "stream_options"@, asked, "temperature"@);
    llm::lemma_with_opt(fixed, "stream_options"@, asked, "tools"@);
    llm::lemma_with_opt(b1, "temperature"@, temperature, "stream_options"@);
    llm::lemma_with_opt(b1, "temperature"@, temperature, "tools"@);
    let sent = if tools.len() > 0 {
        Some(JsonModel::Array(tools_json(tools)))
    } else {
        None
    };
    llm::lemma_with_opt(b2, "tools"@, sent, "stream_options"@);
    llm::lemma_with_opt(b2, "tools"@, sent, "temperature"@);
}

proof fn lemma_absent(
    fixed: JsonModel,
    model: Seq<char>,
    system: Seq<char>,
    messages: Seq<MessageModel>,
    max_tokens: u32,
    key: Seq<char>,
)
    requires
        key != "model"@,
        key != "messages"@,
        key != "max_tokens"@,
        key != "stream"@,
        fixed == JsonModel::object().with("model"@, JsonModel::Str(model)).with(
            "messages"@,
            JsonModel::Array(seq![system_json(system)] + encoded(messages)),
        ).with("max_tokens"@, JsonModel::integer(max_tokens as int)).with(
            "stream"@,
            JsonModel::Bool(true),
        ),
    ensures
        fixed is Object,
        fixed.get(key) is None,
{
    let b0 = JsonModel::object();
    let b1 = b0.with("model"@, JsonModel::Str(model));
    let b2 = b1.with(
        "messages"@,
        JsonModel::Array(seq![system_json(system)] + encoded(messages)),
    );
    let b3 = b2.with("max_tokens"@, JsonModel::integer(max_tokens as int));
    crate::json::law_get_after_set(b0->Object_0, "model"@, JsonModel::Str(model), key);
    crate::json::law_get_after_set(
        b1->Object_0,
        "messages"@,
        JsonModel::Array(seq![system_json(system)] + encoded(messages)),
        key,
    );
    crate::json::law_get_after_set(
        b2->Object_0,
        "max_tokens"@,
        JsonModel::integer(max_tokens as int),
        key,
    );
    crate::json::law_get_after_set(b3->Object_0, "stream"@, JsonModel::Bool(true), key);
}

fn nonempty_str<'a>(s: Option<&'a str>) -> (r: Option<&'a str>)
    ensures
        match r {
            Some(x) => s matches Some(y) && x@ == y@ && x@.len() > 0,
            None => s matches Some(y) ==> y@.len() == 0,
        },
{
    match s {
        Some(x) => if x.is_empty() {
            None
        } else {
            Some(x)
        },
        None => None,
    }
}

fn same_opt(a: &Option<String>, b: &Option<String>) -> (r: bool)
    ensures
        r == (text::opt(*a) == text::opt(*b)),
{
    match (a, b) {
        (Some(x), Some(y)) => text::str_eq(x.as_str(), y.as_str()),
        (None, None) => true,
        _ => false,
    }
}

/// The token counts in `u`.
pub open spec fn usage_of(u: JsonModel) -> Usage {
    Usage {
        input: types::low32(u.u64_at("prompt_tokens"@)),
        output: types::low32(u.u64_at("completion_tokens"@)),
        cache_read: match u.get("prompt_tokens_details"@) {
            Some(d) => types::low32(d.u64_at("cached_tokens"@)),
            None => 0,
        },
        cache_write: 0,
    }
}

/// The token counts in `u`.
pub fn decode_usage(u: &Json) -> (r: Usage)
    ensures
        r == usage_of(u@),
{
    let cache_read = match u.get("prompt_tokens_details") {
        Some(d) => types::truncate32(d.u64_at("cached_tokens")),
        None => 0,
    };
    Usage {
        input: types::truncate32(u.u64_at("prompt_tokens")),
        output: types::truncate32(u.u64_at("completion_tokens")),
        cache_read,
        cache_write: 0,
    }
}

/// Why a response ended.
pub open spec fn stop_of(reason: Seq<char>) -> StopReason {
    if reason == "tool_calls"@ || reason == "function_call"@ {
        StopReason::ToolUse
    } else if reason == "length"@ {
        StopReason::Length
    } else {
        StopReason::Stop
    }
}

/// Why a response ended.
pub fn decode_stop(reason: &str) -> (r: StopReason)
    ensures
        r == stop_of(reason@),
{
    if text::str_eq(reason, "tool_calls") || text::str_eq(reason, "function_call") {
        StopReason::ToolUse
    } else if text::str_eq(reason, "length") {
        StopReason::Length
    } else {
        StopReason::Stop
    }
}

/// The text under `key` in the delta of a chunk; nothing where there is none.
pub open spec fn delta_member(chunk: JsonModel, key: Seq<char>) -> Seq<char> {
    match chunk.get("choices"@) {
        Some(JsonModel::Array(choices)) if choices.len() > 0 => match choices[0].get("delta"@) {
            Some(delta) => match delta.get(key) {
                Some(JsonModel::Str(t)) => t,
                _ => Seq::empty(),
            },
            None => Seq::empty(),
        },
        _ => Seq::empty(),
    }
}

/// The parts of tool calls in the delta of a chunk.
pub open spec fn delta_fragments(chunk: JsonModel) -> Seq<JsonModel> {
    match chunk.get("choices"@) {
        Some(JsonModel::Array(choices)) if choices.len() > 0 => match choices[0].get("delta"@) {
            Some(delta) => match delta.get("tool_calls"@) {
                Some(JsonModel::Array(calls)) => calls,
                _ => Seq::empty(),
            },
            None => Seq::empty(),
        },
        _ => Seq::empty(),
    }
}

/// The text under `key` in the function of a part; nothing where there is none.
pub open spec fn function_member(call: JsonModel, key: Seq<char>) -> Seq<char> {
    match call.get("function"@) {
        Some(f) => match f.get(key) {
            Some(JsonModel::Str(t)) => t,
            _ => Seq::empty(),
        },
        None => Seq::empty(),
    }
}

proof fn lemma_call_streams(open: OpenCall, call: JsonModel)
    ensures
        llm::streamed_text(call_events(open, call)) == Seq::<char>::empty(),
        llm::streamed_thinking(call_events(open, call)) == Seq::<char>::empty(),
        llm::streamed_arguments(call_events(open, call)) == function_member(call, "arguments"@),
{
    let start = StreamModel::ToolCallStart { id: announced_id(call), name: announced_name(call) };
    llm::lemma_streamed_one(StreamModel::ToolCallEnd);
    llm::lemma_streamed_one(start);
    llm::lemma_streamed_add(seq![StreamModel::ToolCallEnd], seq![start]);
    assert(seq![StreamModel::ToolCallEnd].push(start) =~= seq![StreamModel::ToolCallEnd]
        + seq![start]);
    assert(Seq::empty().push(start) =~= seq![start]);
    let before = opening_events(open, call);
    assert(llm::streamed_text(before) =~= Seq::empty());
    assert(llm::streamed_thinking(before) =~= Seq::empty());
    assert(llm::streamed_arguments(before) =~= Seq::empty());
    match function_str(call, "arguments"@) {
        Some(args) => {
            let more = StreamModel::ToolCallDelta(args);
            llm::lemma_streamed_one(more);
            llm::lemma_streamed_add(before, seq![more]);
            assert(before.push(more) =~= before + seq![more]);
            assert(Seq::<char>::empty() + args =~= args);
            assert(Seq::<char>::empty() + Seq::<char>::empty() =~= Seq::<char>::empty());
        },
        None => {
            assert(function_member(call, "arguments"@) =~= Seq::empty());
        },
    }
}

proof fn lemma_calls_stream(open: OpenCall, calls: Seq<JsonModel>)
    ensures
        llm::streamed_text(calls_events(open, calls)) == Seq::<char>::empty(),
        llm::streamed_thinking(calls_events(open, calls)) == Seq::<char>::empty(),
        llm::streamed_arguments(calls_events(open, calls)) == calls.flat_map(
            |c: JsonModel| function_member(c, "arguments"@),
        ),
    decreases calls.len(),
{
    let f = |c: JsonModel| function_member(c, "arguments"@);
    llm::lemma_streamed_one(StreamModel::ToolCallEnd);
    if calls.len() > 0 {
        let init = calls.drop_last();
        lemma_calls_stream(open, init);
        lemma_call_streams(calls_open(open, init), calls.last());
        llm::lemma_streamed_add(
            calls_events(open, init),
            call_events(calls_open(open, init), calls.last()),
        );
        text::lemma_flat_map_last(calls, f);
        assert(Seq::<char>::empty() + Seq::<char>::empty() =~= Seq::<char>::empty());
    } else {
        assert(calls.map_values(f) =~= Seq::empty());
    }
}

proof fn lemma_chunk_streams(open: OpenCall, chunk: JsonModel)
    ensures
        llm::streamed_text(chunk_events(open, chunk)) == delta_member(chunk, "content"@),
        llm::streamed_thinking(chunk_events(open, chunk)) == delta_member(
            chunk,
            "reasoning_content"@,
        ),
        llm::streamed_arguments(chunk_events(open, chunk)) == delta_fragments(chunk).flat_map(
            |c: JsonModel| function_member(c, "arguments"@),
        ),
{
    let f = |c: JsonModel| function_member(c, "arguments"@);
    let none = Seq::<char>::empty();
    let us = usage_events(chunk);
    llm::lemma_streamed_one(StreamModel::ToolCallEnd);
    if us.len() > 0 {
        llm::lemma_streamed_one(us[0]);
        assert(us =~= seq![us[0]]);
    }
    match delta_of(chunk) {
        Some(delta) => {
            let ts: Seq<StreamModel> = match delta_str(delta, "content"@) {
                Some(t) => seq![StreamModel::TextDelta(t)],
                None => Seq::empty(),
            };
            let ks: Seq<StreamModel> = match delta_str(delta, "reasoning_content"@) {
                Some(t) => seq![StreamModel::ThinkingDelta(t)],
                None => Seq::empty(),
            };
            if ts.len() > 0 {
                llm::lemma_streamed_one(ts[0]);
            }
            if ks.len() > 0 {
                llm::lemma_streamed_one(ks[0]);
            }
            let cs = calls_events(open, delta_calls(delta));
            lemma_calls_stream(open, delta_calls(delta));
            llm::lemma_streamed_add(ts, ks);
            llm::lemma_streamed_add(us, ts + ks);
            llm::lemma_streamed_add(us + (ts + ks), cs);
            assert(chunk_events(open, chunk) == us + (ts + ks) + cs);
            assert(delta_calls(delta) == delta_fragments(chunk));
            assert(llm::streamed_text(chunk_events(open, chunk)) =~= delta_member(
                chunk,
                "content"@,
            ));
            assert(llm::streamed_thinking(chunk_events(open, chunk)) =~= delta_member(
                chunk,
                "reasoning_content"@,
            ));
            assert(llm::streamed_arguments(chunk_events(open, chunk)) =~= delta_fragments(
                chunk,
            ).flat_map(f));
        },
        None => {
            assert(delta_fragments(chunk) =~= Seq::empty());
            assert(delta_fragments(chunk).map_values(f) =~= Seq::empty());
            assert(delta_member(chunk, "content"@) =~= none);
            assert(delta_member(chunk, "reasoning_content"@) =~= none);
        },
    }
}

/// Nothing of a stream is lost: the events carry all text, all reasoning and all
/// arguments of tool calls that the chunks hold, in order.
pub proof fn law_stream_carries_all(chunks: Seq<JsonModel>)
    ensures
        llm::streamed_text(stream_events(chunks)) == chunks.flat_map(
            |c: JsonModel| delta_member(c, "content"@),
        ),
        llm::streamed_thinking(stream_events(chunks)) == chunks.flat_map(
            |c: JsonModel| delta_member(c, "reasoning_content"@),
        ),
        llm::streamed_arguments(stream_events(chunks)) == chunks.flat_map(
            |c: JsonModel|
                delta_fragments(c).flat_map(|f: JsonModel| function_member(f, "arguments"@)),
        ),
    decreases chunks.len(),
{
    let ft = |c: JsonModel| delta_member(c, "content"@);
    let fk = |c: JsonModel| delta_member(c, "reasoning_content"@);
    let fa = |c: JsonModel|
        delta_fragments(c).flat_map(|f: JsonModel| function_member(f, "arguments"@));
    llm::lemma_streamed_one(StreamModel::ToolCallEnd);
    if chunks.len() > 0 {
        let init = chunks.drop_last();
        law_stream_carries_all(init);
        lemma_chunk_streams(stream_open(init), chunks.last());
        llm::lemma_streamed_add(
            stream_events(init),
            chunk_events(stream_open(init), chunks.last()),
        );
        text::lemma_flat_map_last(chunks, ft);
        text::lemma_flat_map_last(chunks, fk);
        text::lemma_flat_map_last(chunks, fa);
    } else {
        assert(chunks.map_values(ft) =~= Seq::empty());
        assert(chunks.map_values(fk) =~= Seq::empty());
        assert(chunks.map_values(fa) =~= Seq::empty());
    }
}

/// A part at the place of the open call that brings neither another id nor, without an
/// id, a name of its own continues it: it announces nothing.
pub proof fn law_part_continues_its_call(index: u64, id: Option<Seq<char>>, part: JsonModel)
    requires
        part.u64_at("index"@) == index,
        part.str_at("id"@) is Some && part.str_at("id"@) == id || part.str_at("id"@) is None
            && function_member(part, "name"@).len() == 0,
    ensures
        ({
            let args = function_member(part, "arguments"@);
            &&& call_open(Some((index, id)), part) == Some((index, id))
            &&& call_events(Some((index, id)), part) == (if args.len() == 0 {
                Seq::empty()
            } else {
                seq![StreamModel::ToolCallDelta(args)]
            })
        }),
{
    assert(Seq::empty().push(StreamModel::ToolCallDelta(function_member(part, "arguments"@)))
        =~= seq![StreamModel::ToolCallDelta(function_member(part, "arguments"@))]);
}

/// A part at another place, under another id, or with a name but no id is another call.
/// The open one ends, and the new one is announced under its id and its name; without an
/// id, under one that tells its place.
pub proof fn law_part_begins_its_call(open: OpenCall, part: JsonModel)
    requires
        open matches Some((index, id)) ==> part.u64_at("index"@) != index || part.str_at("id"@)
            is Some && part.str_at("id"@) != id || part.str_at("id"@) is None && function_member(
            part,
            "name"@,
        ).len() > 0,
    ensures
        ({
            let args = function_member(part, "arguments"@);
            let announced = StreamModel::ToolCallStart {
                id: match part.str_at("id"@) {
                    Some(id) => id,
                    None => "call_"@ + text::decimal(part.u64_at("index"@) as nat),
                },
                name: function_member(part, "name"@),
            };
            &&& call_open(open, part) == Some((part.u64_at("index"@), part.str_at("id"@)))
            &&& call_events(open, part) == (if open is Some {
                seq![StreamModel::ToolCallEnd]
            } else {
                Seq::empty()
            }) + seq![announced] + (if args.len() == 0 {
                Seq::empty()
            } else {
                seq![StreamModel::ToolCallDelta(args)]
            })
        }),
{
    assert(announced_name(part) =~= function_member(part, "name"@));
}

/// A stream that ends closes the call that is open, and says last why it ended.
pub proof fn law_end_is_told(open: OpenCall, stop: StopReason)
    ensures
        finish_events(open, stop).last() == StreamModel::Done(stop),
        open is Some ==> finish_events(open, stop).drop_last() == seq![StreamModel::ToolCallEnd],
        open is None ==> finish_events(open, stop).len() == 1,
{
    assert(open is Some ==> finish_events(open, stop).drop_last()
        =~= seq![StreamModel::ToolCallEnd]);
}

/// The last reason that the server gave stands; a chunk without one changes nothing.
pub proof fn law_reason_stands(stop: StopReason, chunk: JsonModel)
    ensures
        match chunk.get("choices"@) {
            Some(JsonModel::Array(choices)) if choices.len() > 0 => match choices[0].get(
                "finish_reason"@,
            ) {
                Some(JsonModel::Str(reason)) => {
                    &&& reason == "tool_calls"@ || reason == "function_call"@ ==> chunk_stop(
                        stop,
                        chunk,
                    ) is ToolUse
                    &&& reason == "length"@ ==> chunk_stop(stop, chunk) is Length
                    &&& reason == "stop"@ ==> chunk_stop(stop, chunk) is Stop
                },
                _ => chunk_stop(stop, chunk) == stop,
            },
            _ => chunk_stop(stop, chunk) == stop,
        },
{
    reveal_strlit("tool_calls");
    reveal_strlit("function_call");
    reveal_strlit("length");
    reveal_strlit("stop");
    assert("tool_calls"@.len() == 10 && "function_call"@.len() == 13 && "length"@.len() == 6
        && "stop"@.len() == 4);
}

/// Token counts are taken as they are reported.
pub proof fn law_usage_is_read(u: JsonModel)
    ensures
        u.u64_at("prompt_tokens"@) <= u32::MAX ==> usage_of(u).input == u.u64_at(
            "prompt_tokens"@,
        ),
        u.u64_at("completion_tokens"@) <= u32::MAX ==> usage_of(u).output == u.u64_at(
            "completion_tokens"@,
        ),
        match u.get("prompt_tokens_details"@) {
            Some(d) => d.u64_at("cached_tokens"@) <= u32::MAX ==> usage_of(u).cache_read
                == d.u64_at("cached_tokens"@),
            None => usage_of(u).cache_read == 0,
        },
        usage_of(u).cache_write == 0,
{
}

proof fn lemma_calls_report_no_usage(open: OpenCall, calls: Seq<JsonModel>)
    ensures
        forall|i: int|
            0 <= i < calls_events(open, calls).len() ==> !(#[trigger] calls_events(open, calls)[i]
                is Usage),
    decreases calls.len(),
{
    if calls.len() > 0 {
        let init = calls.drop_last();
        lemma_calls_report_no_usage(open, init);
        let before = calls_events(open, init);
        let more = call_events(calls_open(open, init), calls.last());
        assert forall|i: int| 0 <= i < calls_events(open, calls).len() implies !(
        #[trigger] calls_events(open, calls)[i] is Usage) by {
            if i < before.len() {
                assert(calls_events(open, calls)[i] == before[i]);
            } else {
                assert(calls_events(open, calls)[i] == more[i - before.len()]);
            }
        }
    }
}

/// Token counts are told where the chunk holds them, once, and nowhere else.
pub proof fn law_usage_is_told(open: OpenCall, chunk: JsonModel)
    ensures
        ({
            let es = chunk_events(open, chunk);
            let told = chunk.get("usage"@) matches Some(u) && !(u is Null);
            &&& told ==> es.len() > 0 && es[0] == StreamModel::Usage(
                usage_of(chunk.get("usage"@)->0),
            ) && forall|i: int| 0 < i < es.len() ==> !(#[trigger] es[i] is Usage)
            &&& !told ==> forall|i: int| 0 <= i < es.len() ==> !(#[trigger] es[i] is Usage)
        }),
{
    let es = chunk_events(open, chunk);
    let us = usage_events(chunk);
    if let Some(delta) = delta_of(chunk) {
        let ts = delta_text_events(delta);
        let cs = calls_events(open, delta_calls(delta));
        lemma_calls_report_no_usage(open, delta_calls(delta));
        assert forall|i: int| us.len() <= i < es.len() implies !(#[trigger] es[i] is Usage) by {
            if i < us.len() + ts.len() {
                assert(es[i] == ts[i - us.len()]);
            } else {
                assert(es[i] == cs[i - us.len() - ts.len()]);
            }
        }
    }
}

/// A chunk that holds an error is a failure and tells its message.
pub proof fn law_errors_are_told(chunk: JsonModel)
    ensures
        chunk_error(chunk) is Some <==> chunk.get("error"@) is Some,
        chunk.get("error"@) matches Some(e) ==> (e.get("message"@) matches Some(JsonModel::Str(m))
            ==> chunk_error(chunk) == Some(m)),
{
}

/// An error text that fits is shown whole; of a longer one its beginning, and an ellipsis.
pub proof fn law_long_errors_are_cut(s: Seq<char>, max: int)
    requires
        0 <= max,
    ensures
        text::byte_len(s) <= max ==> truncated(s, max) == s,
        text::byte_len(s) > max ==> truncated(s, max).len() > 0 && truncated(s, max).last() == '…'
            && truncated(s, max).drop_last().is_prefix_of(s) && text::byte_len(
            truncated(s, max).drop_last(),
        ) >= max,
{
    text::lemma_starting_before(s, max);
    if text::byte_len(s) > max {
        let n = text::starting_before(s, max);
        assert(truncated(s, max).drop_last() =~= s.take(n));
        if n == s.len() {
            assert(s.take(n) =~= s);
        }
    }
}

} // verus!
