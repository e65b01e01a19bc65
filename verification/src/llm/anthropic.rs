//! Anthropic Messages API with streamed answers.
use crate::config;
use crate::config::ModelConfig;
use crate::json;
use crate::json::{Json, JsonModel, JsonObject};
use crate::llm;
use crate::llm::{ApiError, Request, ToolSchema};
use crate::text;
use crate::types;
use crate::types::{ContentBlock, ContentModel, Message, MessageModel, StopReason, StreamEvent, StreamModel, Usage};
use vstd::prelude::*;

verus! {

broadcast use vstd::std_specs::vec::axiom_spec_len;

/// The version of the interface that requests name.
pub const API_VERSION: &'static str = "2023-06-01";

/// The model behind the Anthropic interface.
pub struct Client {
    pub base_url: String,
    pub model: String,
    pub api_key: String,
}

/// The API key, where there is one.
pub open spec fn key_of(cfg: &ModelConfig, key: Option<Seq<char>>) -> Option<Seq<char>> {
    if cfg.api_key_env@.len() == 0 {
        None
    } else {
        config::nonempty(key)
    }
}

/// What is said where the key is missing.
pub open spec fn key_missing(api_key_env: Seq<char>) -> Seq<char> {
    "the anthropic backend needs an API key; set "@ + (if api_key_env.len() == 0 {
        "ANTHROPIC_API_KEY"@
    } else {
        api_key_env
    }) + " (config: model.api_key_env)"@
}

/// Where requests go. The default address points at a local server, which is
/// meaningless here.
pub open spec fn base_of(base_url: Seq<char>) -> Seq<char> {
    if base_url.len() == 0 || text::contains_str(base_url, "11434"@) {
        "https://api.anthropic.com/v1"@
    } else {
        text::trim_slashes(base_url)
    }
}

impl Client {
    /// The client that `cfg` describes, with what the environment holds under
    /// `api_key_env`.
    pub open spec fn is_for(&self, cfg: &ModelConfig, key: Option<Seq<char>>) -> bool {
        &&& self.base_url@ == base_of(cfg.base_url@)
        &&& self.model@ == cfg.model@
        &&& Some(self.api_key@) == key_of(cfg, key)
    }

    pub fn new(cfg: &ModelConfig, key: Option<String>) -> (r: Result<Client, String>)
        ensures
            match r {
                Ok(c) => c.is_for(cfg, text::opt(key)),
                Err(e) => key_of(cfg, text::opt(key)) is None && e@ == key_missing(
                    cfg.api_key_env@,
                ),
            },
    {
        let api_key = match cfg.api_key(key) {
            Some(k) => k,
            None => {
                let mut e = "the anthropic backend needs an API key; set ".to_owned();
                if cfg.api_key_env.as_str().is_empty() {
                    e.push_str("ANTHROPIC_API_KEY");
                } else {
                    e.push_str(cfg.api_key_env.as_str());
                }
                e.push_str(" (config: model.api_key_env)");
                return Err(e);
            },
        };
        let base_url = if cfg.base_url.as_str().is_empty() || text::str_contains(
            cfg.base_url.as_str(),
            "11434",
        ) {
            "https://api.anthropic.com/v1".to_owned()
        } else {
            text::trimmed_slashes(cfg.base_url.as_str())
        };
        Ok(Client { base_url, model: cfg.model.clone(), api_key })
    }

    /// Where requests go.
    pub fn url(&self) -> (r: String)
        ensures
            r@ == self.base_url@ + "/messages"@,
    {
        let mut out = self.base_url.clone();
        out.push_str("/messages");
        out
    }

    /// The body of a request.
    pub fn build_body(&self, req: &Request) -> (r: Json)
        ensures
            r@ == body_of(
                self.model@,
                req.system@,
                types::messages(req.messages@),
                llm::schemas_of(req.tools@),
                req.max_tokens,
                llm::temperature_of(req.temperature),
            ),
    {
        let mut body = JsonObject::new().with("model", Json::string(self.model.as_str())).with(
            "max_tokens",
            Json::from_u64(req.max_tokens as u64),
        ).with("stream", Json::Bool(true)).with("system", Json::string(req.system)).with(
            "messages",
            encode_messages(req.messages),
        );
        if let Some(t) = &req.temperature {
            body = body.with("temperature", t.clone());
        }
        if req.tools.len() > 0 {
            let mut tools: Vec<Json> = Vec::new();
            let mut k: usize = 0;
            while k < req.tools.len()
                invariant
                    k <= req.tools@.len(),
                    tools@.len() == k,
                    forall|j: int|
                        0 <= j < k ==> (#[trigger] tools@[j])@ == tool_json(
                            llm::schema_of(req.tools@[j]),
                        ),
                decreases req.tools@.len() - k,
            {
                tools.push(encode_tool(&req.tools[k]));
                k += 1;
            }
            assert(json::models(tools@) =~= tools_json(llm::schemas_of(req.tools@)));
            body = body.with("tools", Json::array(tools));
        }
        Json::Object(body)
    }
}

/// The members that every request body has. The system prompt is one of them,
/// not a message.
pub open spec fn fixed_body(
    model: Seq<char>,
    system: Seq<char>,
    messages: Seq<MessageModel>,
    max_tokens: u32,
) -> JsonModel {
    JsonModel::object().with("model"@, JsonModel::Str(model)).with(
        "max_tokens"@,
        JsonModel::integer(max_tokens as int),
    ).with("stream"@, JsonModel::Bool(true)).with("system"@, JsonModel::Str(system)).with(
        "messages"@,
        JsonModel::Array(turns_json(turns(messages))),
    )
}

/// The body of a request. The temperature and the tools are left out where there
/// are none.
pub open spec fn body_of(
    model: Seq<char>,
    system: Seq<char>,
    messages: Seq<MessageModel>,
    tools: Seq<llm::SchemaModel>,
    max_tokens: u32,
    temperature: Option<JsonModel>,
) -> JsonModel {
    llm::with_opt(
        llm::with_opt(
            fixed_body(model, system, messages, max_tokens),
            "temperature"@,
            temperature,
        ),
        "tools"@,
        if tools.len() > 0 {
            Some(JsonModel::Array(tools_json(tools)))
        } else {
            None
        },
    )
}

/// The temperature is sent exactly where one is set, and the tools where there
/// are any.
pub proof fn law_optional_members(
    model: Seq<char>,
    system: Seq<char>,
    messages: Seq<MessageModel>,
    tools: Seq<llm::SchemaModel>,
    max_tokens: u32,
    temperature: Option<JsonModel>,
)
    ensures
        ({
            let body = body_of(model, system, messages, tools, max_tokens, temperature);
            &&& body.get("temperature"@) == temperature
            &&& body.get("tools"@) is Some == (tools.len() > 0)
        }),
{
    reveal_strlit("model");
    reveal_strlit("messages");
    reveal_strlit("max_tokens");
    reveal_strlit("stream");
    reveal_strlit("system");
    reveal_strlit("temperature");
    reveal_strlit("tools");
    assert("temperature"@[0] == 't' && "tools"@[0] == 't' && "temperature"@[1] == 'e'
        && "tools"@[1] == 'o');
    assert("model"@[0] == 'm' && "messages"@[0] == 'm' && "max_tokens"@[0] == 'm' && "stream"@[0]
        == 's' && "system"@[0] == 's');
    let fixed = fixed_body(model, system, messages, max_tokens);
    lemma_absent(model, system, messages, max_tokens, "temperature"@);
    lemma_absent(model, system, messages, max_tokens, "tools"@);
    let sent = if tools.len() > 0 {
        Some(JsonModel::Array(tools_json(tools)))
    } else {
        None
    };
    llm::lemma_with_opt(fixed, "temperature"@, temperature, "tools"@);
    llm::lemma_with_opt(
        llm::with_opt(fixed, "temperature"@, temperature),
        "tools"@,
        sent,
        "temperature"@,
    );
}

proof fn lemma_absent(
    model: Seq<char>,
    system: Seq<char>,
    messages: Seq<MessageModel>,
    max_tokens: u32,
    key: Seq<char>,
)
    requires
        key != "model"@,
        key != "max_tokens"@,
        key != "stream"@,
        key != "system"@,
        key != "messages"@,
    ensures
        fixed_body(model, system, messages, max_tokens) is Object,
        fixed_body(model, system, messages, max_tokens).get(key) is None,
{
    let b0 = JsonModel::object();
    let b1 = b0.with("model"@, JsonModel::Str(model));
    let b2 = b1.with("max_tokens"@, JsonModel::integer(max_tokens as int));
    let b3 = b2.with("stream"@, JsonModel::Bool(true));
    let b4 = b3.with("system"@, JsonModel::Str(system));
    json::law_get_after_set(b0->Object_0, "model"@, JsonModel::Str(model), key);
    json::law_get_after_set(
        b1->Object_0,
        "max_tokens"@,
        JsonModel::integer(max_tokens as int),
        key,
    );
    json::law_get_after_set(b2->Object_0, "stream"@, JsonModel::Bool(true), key);
    json::law_get_after_set(b3->Object_0, "system"@, JsonModel::Str(system), key);
    json::law_get_after_set(
        b4->Object_0,
        "messages"@,
        JsonModel::Array(turns_json(turns(messages))),
        key,
    );
}

/// The tools, each by itself.
pub open spec fn tools_json(ts: Seq<llm::SchemaModel>) -> Seq<JsonModel> {
    Seq::new(ts.len(), |i: int| tool_json(ts[i]))
}

/// How a tool is advertised.
pub open spec fn tool_json(t: llm::SchemaModel) -> JsonModel {
    JsonModel::object().with("name"@, JsonModel::Str(t.name)).with(
        "description"@,
        JsonModel::Str(t.description),
    ).with("input_schema"@, t.input_schema)
}

/// How a tool is advertised.
pub fn encode_tool(t: &ToolSchema) -> (r: Json)
    ensures
        r@ == tool_json(llm::schema_of(*t)),
{
    Json::Object(
        JsonObject::new().with("name", Json::string(t.name)).with(
            "description",
            Json::string(t.description),
        ).with("input_schema", t.input_schema.clone()),
    )
}

/// A message as the interface takes it: what the user said, what the assistant
/// said, or a run of tool results.
#[allow(inconsistent_fields)]
pub enum TurnModel {
    User(Seq<char>),
    Assistant(Seq<JsonModel>),
    Results(Seq<JsonModel>),
}

/// How a block is sent. Empty text is left out, and so is reasoning without its
/// signature, which would be rejected.
pub open spec fn block_json(b: ContentModel) -> Option<JsonModel> {
    match b {
        ContentModel::Text { text } => if text.len() > 0 {
            Some(text_json(text))
        } else {
            None
        },
        ContentModel::Thinking { text, signature } => match signature {
            Some(s) => Some(
                JsonModel::object().with("type"@, JsonModel::Str("thinking"@)).with(
                    "thinking"@,
                    JsonModel::Str(text),
                ).with("signature"@, JsonModel::Str(s)),
            ),
            None => None,
        },
        ContentModel::ToolCall { id, name, input } => Some(
            JsonModel::object().with("type"@, JsonModel::Str("tool_use"@)).with(
                "id"@,
                JsonModel::Str(id),
            ).with("name"@, JsonModel::Str(name)).with("input"@, input),
        ),
    }
}

/// The blocks of an assistant turn that are sent.
pub open spec fn blocks_json(bs: Seq<ContentModel>) -> Seq<JsonModel>
    decreases bs.len(),
{
    if bs.len() == 0 {
        Seq::empty()
    } else {
        match block_json(bs.last()) {
            Some(j) => blocks_json(bs.drop_last()).push(j),
            None => blocks_json(bs.drop_last()),
        }
    }
}

/// A block of text.
pub open spec fn text_json(text: Seq<char>) -> JsonModel {
    JsonModel::object().with("type"@, JsonModel::Str("text"@)).with(
        "text"@,
        JsonModel::Str(text),
    )
}

/// The result of one tool call.
pub open spec fn result_json(
    tool_call_id: Seq<char>,
    content: Seq<char>,
    is_error: bool,
) -> JsonModel {
    JsonModel::object().with("type"@, JsonModel::Str("tool_result"@)).with(
        "tool_use_id"@,
        JsonModel::Str(tool_call_id),
    ).with("content"@, JsonModel::Str(content)).with("is_error"@, JsonModel::Bool(is_error))
}

/// The turns of a conversation. Results that follow each other are one turn; an
/// assistant turn with nothing to send is none.
pub open spec fn turns(ms: Seq<MessageModel>) -> Seq<TurnModel>
    decreases ms.len(),
{
    if ms.len() == 0 {
        Seq::empty()
    } else {
        let before = turns(ms.drop_last());
        match ms.last() {
            MessageModel::User { content } => before.push(TurnModel::User(content)),
            MessageModel::Assistant { content, .. } => if blocks_json(content).len() > 0 {
                before.push(TurnModel::Assistant(blocks_json(content)))
            } else {
                before
            },
            MessageModel::ToolResult { tool_call_id, content, is_error, .. } => {
                let block = result_json(tool_call_id, content, is_error);
                if before.len() > 0 && before.last() is Results {
                    before.drop_last().push(
                        TurnModel::Results(before.last()->Results_0.push(block)),
                    )
                } else {
                    before.push(TurnModel::Results(seq![block]))
                }
            },
        }
    }
}

/// Results never stand in two messages in a row, and no message is empty.
pub proof fn law_results_are_merged(ms: Seq<MessageModel>)
    ensures
        forall|i: int|
            #![trigger turns(ms)[i]]
            0 <= i < turns(ms).len() - 1 && turns(ms)[i] is Results ==> !(turns(ms)[i
                + 1] is Results),
        forall|i: int|
            0 <= i < turns(ms).len() ==> match #[trigger] turns(ms)[i] {
                TurnModel::User(_) => true,
                TurnModel::Assistant(blocks) => blocks.len() > 0,
                TurnModel::Results(blocks) => blocks.len() > 0,
            },
    decreases ms.len(),
{
    if ms.len() > 0 {
        law_results_are_merged(ms.drop_last());
        let before = turns(ms.drop_last());
        assert forall|i: int|
            #![trigger turns(ms)[i]]
            0 <= i < turns(ms).len() - 1 && turns(ms)[i] is Results implies !(turns(ms)[i
            + 1] is Results) by {
            assert(before[i] is Results);
            if i + 1 < before.len() {
                assert(!(before[i + 1] is Results));
            }
        }
        assert forall|i: int| 0 <= i < turns(ms).len() implies match #[trigger] turns(ms)[i] {
            TurnModel::User(_) => true,
            TurnModel::Assistant(blocks) => blocks.len() > 0,
            TurnModel::Results(blocks) => blocks.len() > 0,
        } by {
            if i < before.len() {
                assert(match before[i] {
                    TurnModel::User(_) => true,
                    TurnModel::Assistant(blocks) => blocks.len() > 0,
                    TurnModel::Results(blocks) => blocks.len() > 0,
                });
            }
        }
    }
}

/// How a turn is sent. Tool results travel as a user message.
pub open spec fn turn_json(t: TurnModel) -> JsonModel {
    match t {
        TurnModel::User(content) => JsonModel::object().with("role"@, JsonModel::Str("user"@)).with(
            "content"@,
            JsonModel::Array(seq![text_json(content)]),
        ),
        TurnModel::Assistant(blocks) => JsonModel::object().with(
            "role"@,
            JsonModel::Str("assistant"@),
        ).with("content"@, JsonModel::Array(blocks)),
        TurnModel::Results(blocks) => JsonModel::object().with(
            "role"@,
            JsonModel::Str("user"@),
        ).with("content"@, JsonModel::Array(blocks)),
    }
}

pub open spec fn turns_json(ts: Seq<TurnModel>) -> Seq<JsonModel> {
    Seq::new(ts.len(), |i: int| turn_json(ts[i]))
}

enum Turn {
    User(String),
    Assistant(Vec<Json>),
    Results(Vec<Json>),
}

impl Turn {
    spec fn view(&self) -> TurnModel {
        match self {
            Turn::User(content) => TurnModel::User(content@),
            Turn::Assistant(blocks) => TurnModel::Assistant(json::models(blocks@)),
            Turn::Results(blocks) => TurnModel::Results(json::models(blocks@)),
        }
    }
}

spec fn turn_models(ts: Seq<Turn>) -> Seq<TurnModel> {
    Seq::new(ts.len(), |i: int| ts[i]@)
}

fn encode_block(b: &ContentBlock) -> (r: Option<Json>)
    ensures
        match r {
            Some(j) => block_json(b@) == Some(j@),
            None => block_json(b@) is None,
        },
{
    match b {
        ContentBlock::Text { text } => if text.as_str().is_empty() {
            None
        } else {
            Some(
                Json::Object(
                    JsonObject::new().with("type", Json::string("text")).with(
                        "text",
                        Json::string(text.as_str()),
                    ),
                ),
            )
        },
        ContentBlock::Thinking { text, signature } => match signature {
            Some(s) => Some(
                Json::Object(
                    JsonObject::new().with("type", Json::string("thinking")).with(
                        "thinking",
                        Json::string(text.as_str()),
                    ).with("signature", Json::string(s.as_str())),
                ),
            ),
            None => None,
        },
        ContentBlock::ToolCall { id, name, input } => Some(
            Json::Object(
                JsonObject::new().with("type", Json::string("tool_use")).with(
                    "id",
                    Json::string(id.as_str()),
                ).with("name", Json::string(name.as_str())).with("input", input.clone()),
            ),
        ),
    }
}

fn encode_blocks(bs: &Vec<ContentBlock>) -> (r: Vec<Json>)
    ensures
        json::models(r@) == blocks_json(types::contents(bs@)),
{
    let ghost all = types::contents(bs@);
    let mut out: Vec<Json> = Vec::new();
    let mut i: usize = 0;
    assert(all.take(0) =~= Seq::empty());
    assert(json::models(out@) =~= Seq::empty());
    while i < bs.len()
        invariant
            i <= bs@.len(),
            all == types::contents(bs@),
            json::models(out@) == blocks_json(all.take(i as int)),
        decreases bs@.len() - i,
    {
        assert(all.take(i + 1).drop_last() =~= all.take(i as int));
        assert(all.take(i + 1).last() == bs@[i as int]@);
        let ghost before = out@;
        if let Some(j) = encode_block(&bs[i]) {
            out.push(j);
            assert(json::models(out@) =~= json::models(before).push(j@));
        }
        i += 1;
    }
    assert(all.take(i as int) =~= all);
    out
}

fn add_result(turns: &mut Vec<Turn>, block: Json)
    ensures
        turn_models(final(turns)@) == (if old(turns)@.len() > 0 && turn_models(
            old(turns)@,
        ).last() is Results {
            turn_models(old(turns)@).drop_last().push(
                TurnModel::Results(turn_models(old(turns)@).last()->Results_0.push(block@)),
            )
        } else {
            turn_models(old(turns)@).push(TurnModel::Results(seq![block@]))
        }),
{
    let ghost before = turns@;
    let last = turns.pop();
    match last {
        Some(Turn::Results(blocks)) => {
            let mut blocks = blocks;
            let ghost had = blocks@;
            blocks.push(block);
            assert(json::models(blocks@) =~= json::models(had).push(block@));
            turns.push(Turn::Results(blocks));
            assert(turn_models(turns@) =~= turn_models(before).drop_last().push(
                TurnModel::Results(json::models(had).push(block@)),
            ));
        },
        Some(other) => {
            turns.push(other);
            assert(turns@ =~= before);
            let one: Vec<Json> = vec![block];
            assert(json::models(one@) =~= seq![block@]);
            turns.push(Turn::Results(one));
            assert(turn_models(turns@) =~= turn_models(before).push(
                TurnModel::Results(seq![block@]),
            ));
        },
        None => {
            let one: Vec<Json> = vec![block];
            assert(json::models(one@) =~= seq![block@]);
            turns.push(Turn::Results(one));
            assert(turn_models(turns@) =~= turn_models(before).push(
                TurnModel::Results(seq![block@]),
            ));
        },
    }
}

fn encode_turn(t: Turn) -> (r: Json)
    ensures
        r@ == turn_json(t@),
{
    match t {
        Turn::User(content) => {
            let said = Json::Object(
                JsonObject::new().with("type", Json::string("text")).with(
                    "text",
                    Json::Str(content),
                ),
            );
            let blocks: Vec<Json> = vec![said];
            assert(json::models(blocks@) =~= seq![text_json(content@)]);
            Json::Object(
                JsonObject::new().with("role", Json::string("user")).with(
                    "content",
                    Json::array(blocks),
                ),
            )
        },
        Turn::Assistant(blocks) => Json::Object(
            JsonObject::new().with("role", Json::string("assistant")).with(
                "content",
                Json::array(blocks),
            ),
        ),
        Turn::Results(blocks) => Json::Object(
            JsonObject::new().with("role", Json::string("user")).with(
                "content",
                Json::array(blocks),
            ),
        ),
    }
}

/// The messages of a conversation as the interface takes them: tool results go
/// as user messages, and results in a row share one.
pub fn encode_messages(messages: &[Message]) -> (r: Json)
    ensures
        r@ == JsonModel::Array(turns_json(turns(types::messages(messages@)))),
{
    let ghost all = types::messages(messages@);
    let mut ts: Vec<Turn> = Vec::new();
    let mut i: usize = 0;
    assert(all.take(0) =~= Seq::empty());
    assert(turn_models(ts@) =~= Seq::empty());
    while i < messages.len()
        invariant
            i <= messages@.len(),
            all == types::messages(messages@),
            turn_models(ts@) == turns(all.take(i as int)),
        decreases messages@.len() - i,
    {
        assert(all.take(i + 1).drop_last() =~= all.take(i as int));
        assert(all.take(i + 1).last() == messages@[i as int]@);
        let ghost before = ts@;
        match &messages[i] {
            Message::User { content } => {
                ts.push(Turn::User(content.clone()));
                assert(turn_models(ts@) =~= turn_models(before).push(TurnModel::User(content@)));
            },
            Message::Assistant { content, .. } => {
                let blocks = encode_blocks(content);
                if blocks.len() > 0 {
                    let ghost sent = json::models(blocks@);
                    ts.push(Turn::Assistant(blocks));
                    assert(turn_models(ts@) =~= turn_models(before).push(
                        TurnModel::Assistant(sent),
                    ));
                }
            },
            Message::ToolResult { tool_call_id, content, is_error, .. } => {
                let block = Json::Object(
                    JsonObject::new().with("type", Json::string("tool_result")).with(
                        "tool_use_id",
                        Json::string(tool_call_id.as_str()),
                    ).with("content", Json::string(content.as_str())).with(
                        "is_error",
                        Json::Bool(*is_error),
                    ),
                );
                add_result(&mut ts, block);
            },
        }
        i += 1;
    }
    assert(all.take(i as int) =~= all);
    let ghost found = turn_models(ts@);
    let mut out: Vec<Json> = Vec::new();
    let mut rest = ts;
    while rest.len() > 0
        invariant
            found == turns(all),
            out@.len() + rest@.len() == found.len(),
            turn_models(rest@) == found.skip(out@.len() as int),
            forall|j: int| 0 <= j < out@.len() ==> (#[trigger] out@[j])@ == turn_json(found[j]),
        decreases rest@.len(),
    {
        let ghost k = out@.len() as int;
        assert(turn_models(rest@)[0] == found[k]);
        let ghost before = rest@;
        let t = rest.remove(0);
        out.push(encode_turn(t));
        assert(turn_models(rest@) =~= turn_models(before).skip(1));
        assert(found.skip(k).skip(1) =~= found.skip(k + 1));
    }
    assert(json::models(out@) =~= turns_json(found));
    Json::array(out)
}

/// The message of an error event.
pub open spec fn event_error(event: Seq<char>, data: JsonModel) -> Option<Seq<char>> {
    if event == "error"@ {
        Some(
            match data.get("error"@) {
                Some(e) => match e.str_at("message"@) {
                    Some(m) => m,
                    None => "anthropic stream error"@,
                },
                None => "anthropic stream error"@,
            },
        )
    } else {
        None
    }
}

/// The string under `key`, empty where there is none.
pub open spec fn str_or_empty(j: JsonModel, key: Seq<char>) -> Seq<char> {
    match j.str_at(key) {
        Some(s) => s,
        None => Seq::empty(),
    }
}

/// The tool call that an event opens.
pub open spec fn opened_call(data: JsonModel) -> Option<JsonModel> {
    match data.get("content_block"@) {
        Some(b) if b.str_at("type"@) == Some("tool_use"@) => Some(b),
        _ => None,
    }
}

/// What a delta says: text, reasoning, or a piece of a call's arguments.
pub open spec fn delta_events(delta: JsonModel) -> Seq<StreamModel> {
    let kind = delta.str_at("type"@);
    if kind == Some("text_delta"@) {
        match delta.str_at("text"@) {
            Some(t) => seq![StreamModel::TextDelta(t)],
            None => Seq::empty(),
        }
    } else if kind == Some("thinking_delta"@) {
        match delta.str_at("thinking"@) {
            Some(t) => seq![StreamModel::ThinkingDelta(t)],
            None => Seq::empty(),
        }
    } else if kind == Some("input_json_delta"@) {
        match delta.str_at("partial_json"@) {
            Some(t) => seq![StreamModel::ToolCallDelta(t)],
            None => Seq::empty(),
        }
    } else {
        Seq::empty()
    }
}

/// The token counts under `usage`.
pub open spec fn usage_events(holder: Option<JsonModel>) -> Seq<StreamModel> {
    match holder {
        Some(h) => match h.get("usage"@) {
            Some(u) => seq![StreamModel::Usage(usage_of(u))],
            None => Seq::empty(),
        },
        None => Seq::empty(),
    }
}

/// What one event says, where `open` says whether a tool call is open.
pub open spec fn event_events(open: bool, event: Seq<char>, data: JsonModel) -> Seq<StreamModel> {
    if event == "message_start"@ {
        usage_events(data.get("message"@))
    } else if event == "content_block_start"@ {
        match opened_call(data) {
            Some(b) => seq![
                StreamModel::ToolCallStart {
                    id: str_or_empty(b, "id"@),
                    name: str_or_empty(b, "name"@),
                },
            ],
            None => Seq::empty(),
        }
    } else if event == "content_block_delta"@ {
        match data.get("delta"@) {
            Some(d) => delta_events(d),
            None => Seq::empty(),
        }
    } else if event == "content_block_stop"@ {
        if open {
            seq![StreamModel::ToolCallEnd]
        } else {
            Seq::empty()
        }
    } else if event == "message_delta"@ {
        usage_events(Some(data))
    } else {
        Seq::empty()
    }
}

/// Whether a tool call is open after an event.
pub open spec fn event_open(open: bool, event: Seq<char>, data: JsonModel) -> bool {
    if event == "content_block_start"@ {
        open || opened_call(data) is Some
    } else if event == "content_block_stop"@ {
        false
    } else {
        open
    }
}

/// Why the response ends, as far as an event says.
pub open spec fn event_stop(stop: StopReason, event: Seq<char>, data: JsonModel) -> StopReason {
    if event == "message_delta"@ {
        match data.get("delta"@) {
            Some(d) => match d.str_at("stop_reason"@) {
                Some(r) => stop_of(r),
                None => stop,
            },
            None => stop,
        }
    } else {
        stop
    }
}

/// What is said at the end of a stream.
pub open spec fn finish_events(open: bool, stop: StopReason) -> Seq<StreamModel> {
    (if open {
        seq![StreamModel::ToolCallEnd]
    } else {
        Seq::empty()
    }).push(StreamModel::Done(stop))
}

/// Everything that a run of events says.
pub open spec fn stream_events(frames: Seq<(Seq<char>, JsonModel)>) -> Seq<StreamModel>
    decreases frames.len(),
{
    if frames.len() == 0 {
        Seq::empty()
    } else {
        stream_events(frames.drop_last()) + event_events(
            stream_open(frames.drop_last()),
            frames.last().0,
            frames.last().1,
        )
    }
}

/// Whether a tool call is open after a run of events.
pub open spec fn stream_open(frames: Seq<(Seq<char>, JsonModel)>) -> bool
    decreases frames.len(),
{
    if frames.len() == 0 {
        false
    } else {
        event_open(stream_open(frames.drop_last()), frames.last().0, frames.last().1)
    }
}

/// An event in its place: a tool call starts while none is open, and a piece of
/// its arguments comes while it is.
pub open spec fn in_place(open: bool, event: Seq<char>, data: JsonModel) -> bool {
    &&& event == "content_block_start"@ && opened_call(data) is Some ==> !open
    &&& event == "content_block_delta"@ && (data.get("delta"@) matches Some(d) && d.str_at("type"@)
        == Some("input_json_delta"@)) ==> open
}

/// Every event comes in its place, as it does where content blocks come one after
/// the other.
pub open spec fn all_in_place(frames: Seq<(Seq<char>, JsonModel)>) -> bool
    decreases frames.len(),
{
    frames.len() > 0 ==> {
        &&& all_in_place(frames.drop_last())
        &&& in_place(stream_open(frames.drop_last()), frames.last().0, frames.last().1)
    }
}

proof fn lemma_event_nests(open: bool, event: Seq<char>, data: JsonModel)
    requires
        in_place(open, event, data),
    ensures
        llm::nesting(open, event_events(open, event, data)) == Some(event_open(open, event, data)),
{
    reveal_with_fuel(llm::nesting, 2);
    reveal_strlit("message_start");
    reveal_strlit("message_delta");
    reveal_strlit("content_block_start");
    reveal_strlit("content_block_delta");
    reveal_strlit("content_block_stop");
    reveal_strlit("text_delta");
    reveal_strlit("thinking_delta");
    reveal_strlit("input_json_delta");
    assert("message_start"@.len() == 13 && "message_delta"@.len() == 13);
    assert("content_block_start"@.len() == 19 && "content_block_delta"@.len() == 19);
    assert("content_block_stop"@.len() == 18);
    assert("content_block_start"@[14] == 's' && "content_block_delta"@[14] == 'd');
    assert("text_delta"@.len() == 10 && "thinking_delta"@.len() == 14);
    assert("input_json_delta"@.len() == 16);
    let es = event_events(open, event, data);
    if es.len() > 0 {
        assert(es.drop_last() =~= Seq::empty());
    }
}

proof fn lemma_stream_nests(frames: Seq<(Seq<char>, JsonModel)>)
    requires
        all_in_place(frames),
    ensures
        llm::nesting(false, stream_events(frames)) == Some(stream_open(frames)),
    decreases frames.len(),
{
    if frames.len() > 0 {
        let before = frames.drop_last();
        let (event, data) = frames.last();
        lemma_stream_nests(before);
        lemma_event_nests(stream_open(before), event, data);
        llm::lemma_nesting_concat(
            false,
            stream_events(before),
            event_events(stream_open(before), event, data),
        );
    }
}

/// Where a server streams its content blocks one after the other, the tool calls
/// of the answer do not overlap: each is ended before the next starts, arguments
/// come only inside a call, and none is left open, wherever the stream breaks off.
pub proof fn law_tool_calls_do_not_overlap(frames: Seq<(Seq<char>, JsonModel)>, stop: StopReason)
    requires
        all_in_place(frames),
    ensures
        llm::nesting(false, stream_events(frames) + finish_events(stream_open(frames), stop))
            == Some(false),
{
    lemma_stream_nests(frames);
    let open = stream_open(frames);
    let end = finish_events(open, stop);
    reveal_with_fuel(llm::nesting, 3);
    if open {
        assert(end.drop_last() =~= seq![StreamModel::ToolCallEnd]);
        assert(end.drop_last().drop_last() =~= Seq::empty());
    } else {
        assert(end.drop_last() =~= Seq::empty());
    }
    llm::lemma_nesting_concat(false, stream_events(frames), end);
}

/// The reading of one streamed answer.
pub struct Decoder {
    tool_open: bool,
    stop: StopReason,
}

impl Decoder {
    /// Whether a tool call is being streamed.
    pub closed spec fn open(&self) -> bool {
        self.tool_open
    }

    /// Why the response ends, as far as is known.
    pub closed spec fn stop(&self) -> StopReason {
        self.stop
    }

    pub fn new() -> (r: Decoder)
        ensures
            !r.open(),
            r.stop() == StopReason::Stop,
    {
        Decoder { tool_open: false, stop: StopReason::Stop }
    }

    /// Reads one event of the stream; data that is not JSON is passed over.
    pub fn feed(&mut self, event: &str, data: &str) -> (r: Result<Vec<StreamEvent>, ApiError>)
        ensures
            match (r, json::json_parsed(data@)) {
                (Ok(es), None) => {
                    &&& types::events(es@) == Seq::<StreamModel>::empty()
                    &&& *final(self) == *old(self)
                },
                (Ok(es), Some(d)) => {
                    &&& event_error(event@, d) is None
                    &&& types::events(es@) == event_events(old(self).open(), event@, d)
                    &&& final(self).open() == event_open(old(self).open(), event@, d)
                    &&& final(self).stop() == event_stop(old(self).stop(), event@, d)
                },
                (Err(_), None) => false,
                (Err(e), Some(d)) => {
                    &&& event_error(event@, d) matches Some(m) && e.in_stream(m)
                    &&& *final(self) == *old(self)
                },
            },
    {
        match json::parse(data) {
            Some(d) => self.event(event, &d),
            None => {
                let none: Vec<StreamEvent> = Vec::new();
                assert(types::events(none@) =~= Seq::<StreamModel>::empty());
                Ok(none)
            },
        }
    }

    /// Reads one event of the stream.
    pub fn event(&mut self, event: &str, data: &Json) -> (r: Result<Vec<StreamEvent>, ApiError>)
        ensures
            match r {
                Ok(es) => {
                    &&& event_error(event@, data@) is None
                    &&& types::events(es@) == event_events(old(self).open(), event@, data@)
                    &&& final(self).open() == event_open(old(self).open(), event@, data@)
                    &&& final(self).stop() == event_stop(old(self).stop(), event@, data@)
                },
                Err(e) => {
                    &&& event_error(event@, data@) matches Some(m) && e.in_stream(m)
                    &&& *final(self) == *old(self)
                },
            },
    {
        proof {
            lemma_event_names();
        }
        let mut out: Vec<StreamEvent> = Vec::new();
        assert(types::events(out@) =~= Seq::<StreamModel>::empty());
        if text::str_eq(event, "message_start") {
            if let Some(m) = data.get("message") {
                emit_usage(m, &mut out);
            }
        } else if text::str_eq(event, "content_block_start") {
            if let Some(b) = data.get("content_block") {
                if is_str(b.str_at("type"), "tool_use") {
                    let start = StreamEvent::ToolCallStart {
                        id: owned_or_empty(b.str_at("id")),
                        name: owned_or_empty(b.str_at("name")),
                    };
                    llm::emit(&mut out, start);
                    self.tool_open = true;
                }
            }
        } else if text::str_eq(event, "content_block_delta") {
            if let Some(d) = data.get("delta") {
                emit_delta(d, &mut out);
            }
        } else if text::str_eq(event, "content_block_stop") {
            if self.tool_open {
                llm::emit(&mut out, StreamEvent::ToolCallEnd);
                self.tool_open = false;
            }
        } else if text::str_eq(event, "message_delta") {
            if let Some(d) = data.get("delta") {
                if let Some(r) = d.str_at("stop_reason") {
                    self.stop = decode_stop(r);
                }
            }
            emit_usage(data, &mut out);
        } else if text::str_eq(event, "error") {
            let message = match data.get("error") {
                Some(e) => match e.str_at("message") {
                    Some(m) => m.to_owned(),
                    None => "anthropic stream error".to_owned(),
                },
                None => "anthropic stream error".to_owned(),
            };
            return Err(ApiError { status: None, message, retry_after: None });
        }
        assert(types::events(out@) =~= event_events(old(self).open(), event@, data@));
        Ok(out)
    }

    /// What is said at the end of the stream.
    pub fn finish(&self) -> (r: Vec<StreamEvent>)
        ensures
            types::events(r@) == finish_events(self.open(), self.stop()),
    {
        let mut out: Vec<StreamEvent> = Vec::new();
        if self.tool_open {
            llm::emit(&mut out, StreamEvent::ToolCallEnd);
        }
        llm::emit(&mut out, StreamEvent::Done(self.stop));
        assert(types::events(out@) =~= finish_events(self.open(), self.stop()));
        out
    }
}

proof fn lemma_event_names()
    ensures
        "error"@ != "message_start"@,
        "error"@ != "content_block_start"@,
        "error"@ != "content_block_delta"@,
        "error"@ != "content_block_stop"@,
        "error"@ != "message_delta"@,
        "message_delta"@ != "message_start"@,
        "message_delta"@ != "content_block_start"@,
        "message_delta"@ != "content_block_delta"@,
        "message_delta"@ != "content_block_stop"@,
        "content_block_start"@ != "content_block_stop"@,
        "content_block_start"@ != "message_start"@,
        "content_block_stop"@ != "message_start"@,
        "content_block_stop"@ != "content_block_delta"@,
        "content_block_start"@ != "content_block_delta"@,
        "content_block_delta"@ != "message_start"@,
{
    reveal_strlit("error");
    reveal_strlit("message_start");
    reveal_strlit("content_block_start");
    reveal_strlit("content_block_delta");
    reveal_strlit("content_block_stop");
    reveal_strlit("message_delta");
    assert("error"@.len() == 5 && "message_start"@.len() == 13 && "message_delta"@.len() == 13);
    assert("content_block_start"@.len() == 19 && "content_block_delta"@.len() == 19
        && "content_block_stop"@.len() == 18);
    assert("message_delta"@[8] == 'd' && "message_start"@[8] == 's');
    assert("content_block_start"@[14] == 's' && "content_block_delta"@[14] == 'd');
}

fn emit_usage(holder: &Json, out: &mut Vec<StreamEvent>)
    ensures
        types::events(final(out)@) == types::events(old(out)@) + usage_events(Some(holder@)),
{
    if let Some(u) = holder.get("usage") {
        llm::emit(out, StreamEvent::Usage(decode_usage(u)));
    }
    assert(types::events(out@) =~= types::events(old(out)@) + usage_events(Some(holder@)));
}

fn emit_delta(delta: &Json, out: &mut Vec<StreamEvent>)
    ensures
        types::events(final(out)@) == types::events(old(out)@) + delta_events(delta@),
{
    proof {
        reveal_strlit("text_delta");
        reveal_strlit("thinking_delta");
        reveal_strlit("input_json_delta");
    }
    let kind = delta.str_at("type");
    if is_str(kind, "text_delta") {
        if let Some(t) = delta.str_at("text") {
            llm::emit(out, StreamEvent::TextDelta(t.to_owned()));
        }
    } else if is_str(kind, "thinking_delta") {
        if let Some(t) = delta.str_at("thinking") {
            llm::emit(out, StreamEvent::ThinkingDelta(t.to_owned()));
        }
    } else if is_str(kind, "input_json_delta") {
        if let Some(t) = delta.str_at("partial_json") {
            llm::emit(out, StreamEvent::ToolCallDelta(t.to_owned()));
        }
    }
    assert(types::events(out@) =~= types::events(old(out)@) + delta_events(delta@));
}

fn is_str(s: Option<&str>, literal: &str) -> (r: bool)
    ensures
        r == (s matches Some(x) && x@ == literal@),
{
    match s {
        Some(x) => text::str_eq(x, literal),
        None => false,
    }
}

fn owned_or_empty(s: Option<&str>) -> (r: String)
    ensures
        r@ == (match s {
            Some(x) => x@,
            None => Seq::empty(),
        }),
{
    match s {
        Some(x) => x.to_owned(),
        None => String::new(),
    }
}

/// The token counts in `u`.
pub open spec fn usage_of(u: JsonModel) -> Usage {
    Usage {
        input: types::low32(u.u64_at("input_tokens"@)),
        output: types::low32(u.u64_at("output_tokens"@)),
        cache_read: types::low32(u.u64_at("cache_read_input_tokens"@)),
        cache_write: types::low32(u.u64_at("cache_creation_input_tokens"@)),
    }
}

/// The token counts in `u`.
pub fn decode_usage(u: &Json) -> (r: Usage)
    ensures
        r == usage_of(u@),
{
    Usage {
        input: types::truncate32(u.u64_at("input_tokens")),
        output: types::truncate32(u.u64_at("output_tokens")),
        cache_read: types::truncate32(u.u64_at("cache_read_input_tokens")),
        cache_write: types::truncate32(u.u64_at("cache_creation_input_tokens")),
    }
}

/// Why a response ended. A refusal is an error: as a normal stop it would show
/// an empty reply with no cause.
pub open spec fn stop_of(reason: Seq<char>) -> StopReason {
    if reason == "tool_use"@ {
        StopReason::ToolUse
    } else if reason == "max_tokens"@ {
        StopReason::Length
    } else if reason == "refusal"@ {
        StopReason::Error
    } else {
        StopReason::Stop
    }
}

/// Why a response ended.
pub fn decode_stop(reason: &str) -> (r: StopReason)
    ensures
        r == stop_of(reason@),
{
    if text::str_eq(reason, "tool_use") {
        StopReason::ToolUse
    } else if text::str_eq(reason, "max_tokens") {
        StopReason::Length
    } else if text::str_eq(reason, "refusal") {
        StopReason::Error
    } else {
        StopReason::Stop
    }
}

/// The error for a response with a failing status: what the server said.
pub fn status_error(
    status: u16,
    status_text: &str,
    retry_after: Option<&str>,
    message: &str,
) -> (r: ApiError)
    ensures
        r.status == Some(status),
        r.message@ == status_text@ + ": "@ + message@,
        llm::is_asked_wait(retry_after, r.retry_after),
{
    let mut m = status_text.to_owned();
    m.push_str(": ");
    m.push_str(message);
    ApiError { status: Some(status), message: m, retry_after: llm::parse_retry_after(retry_after) }
}

/// The keys differ from each other.
proof fn lemma_sent_keys()
    ensures
        "role"@ != "content"@,
        "role"@ != "type"@,
        "role"@ != "text"@,
        "role"@ != "thinking"@,
        "role"@ != "signature"@,
        "role"@ != "id"@,
        "role"@ != "name"@,
        "role"@ != "input"@,
        "role"@ != "tool_use_id"@,
        "role"@ != "is_error"@,
        "role"@ != "description"@,
        "role"@ != "input_schema"@,
        "role"@ != "model"@,
        "role"@ != "max_tokens"@,
        "role"@ != "stream"@,
        "role"@ != "system"@,
        "role"@ != "messages"@,
        "role"@ != "temperature"@,
        "role"@ != "tools"@,
        "content"@ != "type"@,
        "content"@ != "text"@,
        "content"@ != "thinking"@,
        "content"@ != "signature"@,
        "content"@ != "id"@,
        "content"@ != "name"@,
        "content"@ != "input"@,
        "content"@ != "tool_use_id"@,
        "content"@ != "is_error"@,
        "content"@ != "description"@,
        "content"@ != "input_schema"@,
        "content"@ != "model"@,
        "content"@ != "max_tokens"@,
        "content"@ != "stream"@,
        "content"@ != "system"@,
        "content"@ != "messages"@,
        "content"@ != "temperature"@,
        "content"@ != "tools"@,
        "type"@ != "text"@,
        "type"@ != "thinking"@,
        "type"@ != "signature"@,
        "type"@ != "id"@,
        "type"@ != "name"@,
        "type"@ != "input"@,
        "type"@ != "tool_use_id"@,
        "type"@ != "is_error"@,
        "type"@ != "description"@,
        "type"@ != "input_schema"@,
        "type"@ != "model"@,
        "type"@ != "max_tokens"@,
        "type"@ != "stream"@,
        "type"@ != "system"@,
        "type"@ != "messages"@,
        "type"@ != "temperature"@,
        "type"@ != "tools"@,
        "text"@ != "thinking"@,
        "text"@ != "signature"@,
        "text"@ != "id"@,
        "text"@ != "name"@,
        "text"@ != "input"@,
        "text"@ != "tool_use_id"@,
        "text"@ != "is_error"@,
        "text"@ != "description"@,
        "text"@ != "input_schema"@,
        "text"@ != "model"@,
        "text"@ != "max_tokens"@,
        "text"@ != "stream"@,
        "text"@ != "system"@,
        "text"@ != "messages"@,
        "text"@ != "temperature"@,
        "text"@ != "tools"@,
        "thinking"@ != "signature"@,
        "thinking"@ != "id"@,
        "thinking"@ != "name"@,
        "thinking"@ != "input"@,
        "thinking"@ != "tool_use_id"@,
        "thinking"@ != "is_error"@,
        "thinking"@ != "description"@,
        "thinking"@ != "input_schema"@,
        "thinking"@ != "model"@,
        "thinking"@ != "max_tokens"@,
        "thinking"@ != "stream"@,
        "thinking"@ != "system"@,
        "thinking"@ != "messages"@,
        "thinking"@ != "temperature"@,
        "thinking"@ != "tools"@,
        "signature"@ != "id"@,
        "signature"@ != "name"@,
        "signature"@ != "input"@,
        "signature"@ != "tool_use_id"@,
        "signature"@ != "is_error"@,
        "signature"@ != "description"@,
        "signature"@ != "input_schema"@,
        "signature"@ != "model"@,
        "signature"@ != "max_tokens"@,
        "signature"@ != "stream"@,
        "signature"@ != "system"@,
        "signature"@ != "messages"@,
        "signature"@ != "temperature"@,
        "signature"@ != "tools"@,
        "id"@ != "name"@,
        "id"@ != "input"@,
        "id"@ != "tool_use_id"@,
        "id"@ != "is_error"@,
        "id"@ != "description"@,
        "id"@ != "input_schema"@,
        "id"@ != "model"@,
        "id"@ != "max_tokens"@,
        "id"@ != "stream"@,
        "id"@ != "system"@,
        "id"@ != "messages"@,
        "id"@ != "temperature"@,
        "id"@ != "tools"@,
        "name"@ != "input"@,
        "name"@ != "tool_use_id"@,
        "name"@ != "is_error"@,
        "name"@ != "description"@,
        "name"@ != "input_schema"@,
        "name"@ != "model"@,
        "name"@ != "max_tokens"@,
        "name"@ != "stream"@,
        "name"@ != "system"@,
        "name"@ != "messages"@,
        "name"@ != "temperature"@,
        "name"@ != "tools"@,
        "input"@ != "tool_use_id"@,
        "input"@ != "is_error"@,
        "input"@ != "description"@,
        "input"@ != "input_schema"@,
        "input"@ != "model"@,
        "input"@ != "max_tokens"@,
        "input"@ != "stream"@,
        "input"@ != "system"@,
        "input"@ != "messages"@,
        "input"@ != "temperature"@,
        "input"@ != "tools"@,
        "tool_use_id"@ != "is_error"@,
        "tool_use_id"@ != "description"@,
        "tool_use_id"@ != "input_schema"@,
        "tool_use_id"@ != "model"@,
        "tool_use_id"@ != "max_tokens"@,
        "tool_use_id"@ != "stream"@,
        "tool_use_id"@ != "system"@,
        "tool_use_id"@ != "messages"@,
        "tool_use_id"@ != "temperature"@,
        "tool_use_id"@ != "tools"@,
        "is_error"@ != "description"@,
        "is_error"@ != "input_schema"@,
        "is_error"@ != "model"@,
        "is_error"@ != "max_tokens"@,
        "is_error"@ != "stream"@,
        "is_error"@ != "system"@,
        "is_error"@ != "messages"@,
        "is_error"@ != "temperature"@,
        "is_error"@ != "tools"@,
        "description"@ != "input_schema"@,
        "description"@ != "model"@,
        "description"@ != "max_tokens"@,
        "description"@ != "stream"@,
        "description"@ != "system"@,
        "description"@ != "messages"@,
        "description"@ != "temperature"@,
        "description"@ != "tools"@,
        "input_schema"@ != "model"@,
        "input_schema"@ != "max_tokens"@,
        "input_schema"@ != "stream"@,
        "input_schema"@ != "system"@,
        "input_schema"@ != "messages"@,
        "input_schema"@ != "temperature"@,
        "input_schema"@ != "tools"@,
        "model"@ != "max_tokens"@,
        "model"@ != "stream"@,
        "model"@ != "system"@,
        "model"@ != "messages"@,
        "model"@ != "temperature"@,
        "model"@ != "tools"@,
        "max_tokens"@ != "stream"@,
        "max_tokens"@ != "system"@,
        "max_tokens"@ != "messages"@,
        "max_tokens"@ != "temperature"@,
        "max_tokens"@ != "tools"@,
        "stream"@ != "system"@,
        "stream"@ != "messages"@,
        "stream"@ != "temperature"@,
        "stream"@ != "tools"@,
        "system"@ != "messages"@,
        "system"@ != "temperature"@,
        "system"@ != "tools"@,
        "messages"@ != "temperature"@,
        "messages"@ != "tools"@,
        "temperature"@ != "tools"@,
{
    reveal_strlit("role");
    reveal_strlit("content");
    reveal_strlit("type");
    reveal_strlit("text");
    reveal_strlit("thinking");
    reveal_strlit("signature");
    reveal_strlit("id");
    reveal_strlit("name");
    reveal_strlit("input");
    reveal_strlit("tool_use_id");
    reveal_strlit("is_error");
    reveal_strlit("description");
    reveal_strlit("input_schema");
    reveal_strlit("model");
    reveal_strlit("max_tokens");
    reveal_strlit("stream");
    reveal_strlit("system");
    reveal_strlit("messages");
    reveal_strlit("temperature");
    reveal_strlit("tools");
    assert("role"@.len() == 4);
    assert("content"@.len() == 7);
    assert("type"@.len() == 4);
    assert("text"@.len() == 4);
    assert("thinking"@.len() == 8);
    assert("signature"@.len() == 9);
    assert("id"@.len() == 2);
    assert("name"@.len() == 4);
    assert("input"@.len() == 5);
    assert("tool_use_id"@.len() == 11);
    assert("is_error"@.len() == 8);
    assert("description"@.len() == 11);
    assert("input_schema"@.len() == 12);
    assert("model"@.len() == 5);
    assert("max_tokens"@.len() == 10);
    assert("stream"@.len() == 6);
    assert("system"@.len() == 6);
    assert("messages"@.len() == 8);
    assert("temperature"@.len() == 11);
    assert("tools"@.len() == 5);
    assert("role"@[0] == 'r' && "type"@[0] == 't');
    assert("role"@[0] == 'r' && "text"@[0] == 't');
    assert("role"@[0] == 'r' && "name"@[0] == 'n');
    assert("type"@[1] == 'y' && "text"@[1] == 'e');
    assert("type"@[0] == 't' && "name"@[0] == 'n');
    assert("text"@[0] == 't' && "name"@[0] == 'n');
    assert("thinking"@[0] == 't' && "is_error"@[0] == 'i');
    assert("thinking"@[0] == 't' && "messages"@[0] == 'm');
    assert("input"@[0] == 'i' && "model"@[0] == 'm');
    assert("input"@[0] == 'i' && "tools"@[0] == 't');
    assert("tool_use_id"@[0] == 't' && "description"@[0] == 'd');
    assert("tool_use_id"@[1] == 'o' && "temperature"@[1] == 'e');
    assert("is_error"@[0] == 'i' && "messages"@[0] == 'm');
    assert("description"@[0] == 'd' && "temperature"@[0] == 't');
    assert("model"@[0] == 'm' && "tools"@[0] == 't');
    assert("stream"@[1] == 't' && "system"@[1] == 'y');
}

/// The content of an entry, each block with the role under which it is sent.
pub open spec fn labelled(entry: JsonModel) -> Seq<(Option<JsonModel>, JsonModel)> {
    match entry.get("content"@) {
        Some(JsonModel::Array(blocks)) => under_role(entry.get("role"@), blocks),
        _ => Seq::empty(),
    }
}

/// Blocks under one role.
pub open spec fn under_role(role: Option<JsonModel>, blocks: Seq<JsonModel>) -> Seq<
    (Option<JsonModel>, JsonModel),
> {
    Seq::new(blocks.len(), |i: int| (role, blocks[i]))
}

/// What is to be sent of a message: what the user said, the blocks of an answer that
/// can be sent, or the result of a tool.
pub open spec fn owed(m: MessageModel) -> Seq<(Option<JsonModel>, JsonModel)> {
    let user = Some(JsonModel::Str("user"@));
    match m {
        MessageModel::User { content } => seq![(user, text_json(content))],
        MessageModel::Assistant { content, .. } => under_role(
            Some(JsonModel::Str("assistant"@)),
            content.filter_map(|b: ContentModel| block_json(b)),
        ),
        MessageModel::ToolResult { tool_call_id, content, is_error, .. } => seq![
            (user, result_json(tool_call_id, content, is_error)),
        ],
    }
}

proof fn lemma_blocks_json(bs: Seq<ContentModel>)
    ensures
        blocks_json(bs) == bs.filter_map(|b: ContentModel| block_json(b)),
    decreases bs.len(),
{
    if bs.len() > 0 {
        lemma_blocks_json(bs.drop_last());
    }
}

proof fn lemma_labelled(t: TurnModel)
    ensures
        labelled(turn_json(t)) == (match t {
            TurnModel::User(content) => seq![(Some(JsonModel::Str("user"@)), text_json(content))],
            TurnModel::Assistant(blocks) => under_role(
                Some(JsonModel::Str("assistant"@)),
                blocks,
            ),
            TurnModel::Results(blocks) => under_role(Some(JsonModel::Str("user"@)), blocks),
        }),
{
    broadcast use json::lemma_get_with;

    lemma_sent_keys();
    assert(labelled(turn_json(t)) =~= (match t {
        TurnModel::User(content) => seq![(Some(JsonModel::Str("user"@)), text_json(content))],
        TurnModel::Assistant(blocks) => under_role(Some(JsonModel::Str("assistant"@)), blocks),
        TurnModel::Results(blocks) => under_role(Some(JsonModel::Str("user"@)), blocks),
    }));
}

/// The whole conversation is sent: every block that is owed for a message, in order and
/// under its role, and nothing else, however the messages are grouped.
pub proof fn law_whole_conversation_is_sent(ms: Seq<MessageModel>)
    ensures
        turns_json(turns(ms)).flat_map(|t: JsonModel| labelled(t)) == ms.flat_map(
            |m: MessageModel| owed(m),
        ),
    decreases ms.len(),
{
    let f = |t: JsonModel| labelled(t);
    let g = |m: MessageModel| owed(m);
    let all = turns_json(turns(ms));
    if ms.len() > 0 {
        let init = ms.drop_last();
        law_whole_conversation_is_sent(init);
        text::lemma_flat_map_last(ms, g);
        let before = turns(init);
        let sent = turns_json(before);
        let now = turns(ms);
        if let MessageModel::Assistant { content, .. } = ms.last() {
            lemma_blocks_json(content);
        }
        if now.len() > before.len() {
            assert(all.drop_last() =~= sent);
            text::lemma_flat_map_last(all, f);
            lemma_labelled(now.last());
            assert(labelled(all.last()) =~= owed(ms.last()));
        } else if ms.last() is ToolResult {
            text::lemma_flat_map_last(all, f);
            text::lemma_flat_map_last(sent, f);
            assert(all.drop_last() =~= sent.drop_last());
            lemma_labelled(now.last());
            lemma_labelled(before.last());
            assert(labelled(all.last()) =~= labelled(sent.last()) + owed(ms.last()));
            assert(all.flat_map(f) =~= sent.flat_map(f) + owed(ms.last()));
        } else {
            assert(owed(ms.last()) =~= Seq::empty());
            assert(all.flat_map(f) =~= sent.flat_map(f) + owed(ms.last()));
        }
    } else {
        assert(all.map_values(f) =~= Seq::empty());
        assert(ms.map_values(g) =~= Seq::empty());
    }
}

/// A block is sent with all that it holds. Only empty text and reasoning without a
/// signature cannot be sent.
pub proof fn law_blocks_are_sent_whole(b: ContentModel)
    ensures
        match b {
            ContentModel::Text { text } => {
                &&& block_json(b) is None <==> text.len() == 0
                &&& block_json(b) matches Some(j) ==> j.get("type"@) == Some(
                    JsonModel::Str("text"@),
                ) && j.get("text"@) == Some(JsonModel::Str(text))
            },
            ContentModel::Thinking { text, signature } => {
                &&& block_json(b) is None <==> signature is None
                &&& block_json(b) matches Some(j) ==> j.get("type"@) == Some(
                    JsonModel::Str("thinking"@),
                ) && j.get("thinking"@) == Some(JsonModel::Str(text)) && j.get("signature"@)
                    == Some(JsonModel::Str(signature->0))
            },
            ContentModel::ToolCall { id, name, input } => {
                &&& block_json(b) matches Some(j)
                &&& j.get("type"@) == Some(JsonModel::Str("tool_use"@))
                &&& j.get("id"@) == Some(JsonModel::Str(id))
                &&& j.get("name"@) == Some(JsonModel::Str(name))
                &&& j.get("input"@) == Some(input)
            },
        },
{
    broadcast use json::lemma_get_with;

    lemma_sent_keys();
}

/// The result of a tool is sent under the id of its call, with its output and whether
/// it failed; what the user said is sent as text.
pub proof fn law_results_are_sent_whole(id: Seq<char>, content: Seq<char>, is_error: bool)
    ensures
        result_json(id, content, is_error).get("type"@) == Some(JsonModel::Str("tool_result"@)),
        result_json(id, content, is_error).get("tool_use_id"@) == Some(JsonModel::Str(id)),
        result_json(id, content, is_error).get("content"@) == Some(JsonModel::Str(content)),
        result_json(id, content, is_error).get("is_error"@) == Some(JsonModel::Bool(is_error)),
        text_json(content).get("type"@) == Some(JsonModel::Str("text"@)),
        text_json(content).get("text"@) == Some(JsonModel::Str(content)),
{
    broadcast use json::lemma_get_with;

    lemma_sent_keys();
}

/// A request names the model and the bound on the answer, asks for a stream, and holds
/// the system prompt, the conversation and every tool, in order.
pub proof fn law_request_is_whole(
    model: Seq<char>,
    system: Seq<char>,
    messages: Seq<MessageModel>,
    tools: Seq<llm::SchemaModel>,
    max_tokens: u32,
    temperature: Option<JsonModel>,
)
    ensures
        ({
            let body = body_of(model, system, messages, tools, max_tokens, temperature);
            &&& body.get("model"@) == Some(JsonModel::Str(model))
            &&& body.get("max_tokens"@) == Some(JsonModel::integer(max_tokens as int))
            &&& body.get("stream"@) == Some(JsonModel::Bool(true))
            &&& body.get("system"@) == Some(JsonModel::Str(system))
            &&& body.get("messages"@) == Some(JsonModel::Array(turns_json(turns(messages))))
            &&& body.get("temperature"@) == temperature
            &&& tools.len() == 0 ==> body.get("tools"@) is None
            &&& tools.len() > 0 ==> {
                &&& body.get("tools"@) matches Some(JsonModel::Array(items))
                &&& items.len() == tools.len()
                &&& forall|i: int|
                    0 <= i < tools.len() ==> {
                        &&& (#[trigger] items[i]).get("name"@) == Some(
                            JsonModel::Str(tools[i].name),
                        )
                        &&& items[i].get("description"@) == Some(
                            JsonModel::Str(tools[i].description),
                        )
                        &&& items[i].get("input_schema"@) == Some(tools[i].input_schema)
                    }
            }
        }),
{
    broadcast use json::lemma_get_with;

    lemma_sent_keys();
}

/// The text under `key` of a delta of this type; nothing in any other frame.
pub open spec fn delta_member(
    frame: (Seq<char>, JsonModel),
    kind: Seq<char>,
    key: Seq<char>,
) -> Seq<char> {
    match frame.1.get("delta"@) {
        Some(d) => match (d.get("type"@), d.get(key)) {
            (Some(JsonModel::Str(k)), Some(JsonModel::Str(t))) if frame.0
                == "content_block_delta"@ && k == kind => t,
            _ => Seq::empty(),
        },
        None => Seq::empty(),
    }
}

/// The tool call that a frame opens, if any.
pub open spec fn started(frame: (Seq<char>, JsonModel)) -> Seq<StreamModel> {
    match frame.1.get("content_block"@) {
        Some(b) if frame.0 == "content_block_start"@ && b.get("type"@) == Some(
            JsonModel::Str("tool_use"@),
        ) => seq![
            StreamModel::ToolCallStart {
                id: match b.get("id"@) {
                    Some(JsonModel::Str(id)) => id,
                    _ => Seq::empty(),
                },
                name: match b.get("name"@) {
                    Some(JsonModel::Str(name)) => name,
                    _ => Seq::empty(),
                },
            },
        ],
        _ => Seq::empty(),
    }
}

proof fn lemma_event_streams(open: bool, event: Seq<char>, data: JsonModel)
    ensures
        ({
            let es = event_events(open, event, data);
            &&& llm::streamed_text(es) == delta_member((event, data), "text_delta"@, "text"@)
            &&& llm::streamed_thinking(es) == delta_member(
                (event, data),
                "thinking_delta"@,
                "thinking"@,
            )
            &&& llm::streamed_arguments(es) == delta_member(
                (event, data),
                "input_json_delta"@,
                "partial_json"@,
            )
            &&& es.filter(|e: StreamModel| e is ToolCallStart) == started((event, data))
        }),
{
    let es = event_events(open, event, data);
    lemma_event_names();
    lemma_delta_names();
    llm::lemma_streamed_one(StreamModel::ToolCallEnd);
    reveal(Seq::filter);
    reveal_with_fuel(Seq::filter, 2);
    if es.len() > 0 {
        assert(es =~= seq![es[0]]);
        llm::lemma_streamed_one(es[0]);
        assert(es.drop_last() =~= Seq::empty());
        assert(es.last() == es[0]);
    } else {
        assert(es =~= Seq::empty());
    }
    assert(es.filter(|e: StreamModel| e is ToolCallStart) =~= started((event, data)));
}

/// The keys differ from each other.
proof fn lemma_delta_names()
    ensures
        "text_delta"@ != "thinking_delta"@,
        "text_delta"@ != "input_json_delta"@,
        "thinking_delta"@ != "input_json_delta"@,
{
    reveal_strlit("text_delta");
    reveal_strlit("thinking_delta");
    reveal_strlit("input_json_delta");
    assert("text_delta"@.len() == 10);
    assert("thinking_delta"@.len() == 14);
    assert("input_json_delta"@.len() == 16);
}

/// Nothing of a stream is lost: the events carry all text, all reasoning and all
/// arguments that the frames hold, in order, and announce every tool call that a frame
/// opens.
pub proof fn law_stream_carries_all(frames: Seq<(Seq<char>, JsonModel)>)
    ensures
        llm::streamed_text(stream_events(frames)) == frames.flat_map(
            |f: (Seq<char>, JsonModel)| delta_member(f, "text_delta"@, "text"@),
        ),
        llm::streamed_thinking(stream_events(frames)) == frames.flat_map(
            |f: (Seq<char>, JsonModel)| delta_member(f, "thinking_delta"@, "thinking"@),
        ),
        llm::streamed_arguments(stream_events(frames)) == frames.flat_map(
            |f: (Seq<char>, JsonModel)| delta_member(f, "input_json_delta"@, "partial_json"@),
        ),
        stream_events(frames).filter(|e: StreamModel| e is ToolCallStart) == frames.flat_map(
            |f: (Seq<char>, JsonModel)| started(f),
        ),
    decreases frames.len(),
{
    let ft = |f: (Seq<char>, JsonModel)| delta_member(f, "text_delta"@, "text"@);
    let fk = |f: (Seq<char>, JsonModel)| delta_member(f, "thinking_delta"@, "thinking"@);
    let fa = |f: (Seq<char>, JsonModel)| delta_member(f, "input_json_delta"@, "partial_json"@);
    let fs = |f: (Seq<char>, JsonModel)| started(f);
    let p = |e: StreamModel| e is ToolCallStart;
    llm::lemma_streamed_one(StreamModel::ToolCallEnd);
    reveal(Seq::filter);
    if frames.len() > 0 {
        let init = frames.drop_last();
        let last = frames.last();
        law_stream_carries_all(init);
        lemma_event_streams(stream_open(init), last.0, last.1);
        let more = event_events(stream_open(init), last.0, last.1);
        llm::lemma_streamed_add(stream_events(init), more);
        Seq::filter_distributes_over_add(stream_events(init), more, p);
        text::lemma_flat_map_last(frames, ft);
        text::lemma_flat_map_last(frames, fk);
        text::lemma_flat_map_last(frames, fa);
        text::lemma_flat_map_last(frames, fs);
    } else {
        assert(frames.map_values(ft) =~= Seq::empty());
        assert(frames.map_values(fk) =~= Seq::empty());
        assert(frames.map_values(fa) =~= Seq::empty());
        assert(frames.map_values(fs) =~= Seq::empty());
    }
}

/// The last reason that the server gave stands, and a stream that ends says it last,
/// behind the end of the call that is open.
pub proof fn law_reason_stands(stop: StopReason, data: JsonModel, event: Seq<char>, open: bool)
    ensures
        event != "message_delta"@ ==> event_stop(stop, event, data) == stop,
        match data.get("delta"@) {
            Some(d) => match d.get("stop_reason"@) {
                Some(JsonModel::Str(reason)) => {
                    let told = event_stop(stop, "message_delta"@, data);
                    &&& reason == "tool_use"@ ==> told is ToolUse
                    &&& reason == "max_tokens"@ ==> told is Length
                    &&& reason == "refusal"@ ==> told is Error
                    &&& reason == "end_turn"@ || reason == "stop_sequence"@ ==> told is Stop
                },
                _ => event_stop(stop, "message_delta"@, data) == stop,
            },
            None => event_stop(stop, "message_delta"@, data) == stop,
        },
        finish_events(open, stop).last() == StreamModel::Done(stop),
        open ==> finish_events(open, stop).drop_last() == seq![StreamModel::ToolCallEnd],
        !open ==> finish_events(open, stop).len() == 1,
{
    lemma_reasons();
    assert(open ==> finish_events(open, stop).drop_last() =~= seq![StreamModel::ToolCallEnd]);
}

/// The keys differ from each other.
proof fn lemma_reasons()
    ensures
        "tool_use"@ != "max_tokens"@,
        "tool_use"@ != "refusal"@,
        "tool_use"@ != "end_turn"@,
        "tool_use"@ != "stop_sequence"@,
        "max_tokens"@ != "refusal"@,
        "max_tokens"@ != "end_turn"@,
        "max_tokens"@ != "stop_sequence"@,
        "refusal"@ != "end_turn"@,
        "refusal"@ != "stop_sequence"@,
        "end_turn"@ != "stop_sequence"@,
{
    reveal_strlit("tool_use");
    reveal_strlit("max_tokens");
    reveal_strlit("refusal");
    reveal_strlit("end_turn");
    reveal_strlit("stop_sequence");
    assert("tool_use"@.len() == 8);
    assert("max_tokens"@.len() == 10);
    assert("refusal"@.len() == 7);
    assert("end_turn"@.len() == 8);
    assert("stop_sequence"@.len() == 13);
    assert("tool_use"@[0] == 't' && "end_turn"@[0] == 'e');
}

/// Token counts are taken as they are reported.
pub proof fn law_usage_is_read(u: JsonModel)
    ensures
        u.u64_at("input_tokens"@) <= u32::MAX ==> usage_of(u).input == u.u64_at("input_tokens"@),
        u.u64_at("output_tokens"@) <= u32::MAX ==> usage_of(u).output == u.u64_at(
            "output_tokens"@,
        ),
        u.u64_at("cache_read_input_tokens"@) <= u32::MAX ==> usage_of(u).cache_read == u.u64_at(
            "cache_read_input_tokens"@,
        ),
        u.u64_at("cache_creation_input_tokens"@) <= u32::MAX ==> usage_of(u).cache_write
            == u.u64_at("cache_creation_input_tokens"@),
{
}

/// Token counts are told where a frame holds them: at the beginning of the message and
/// where it changes.
pub proof fn law_usage_is_told(open: bool, u: JsonModel, rest: JsonModel)
    requires
        rest is Object,
    ensures
        event_events(
            open,
            "message_start"@,
            JsonModel::object().with("message"@, rest.with("usage"@, u)),
        ) == seq![StreamModel::Usage(usage_of(u))],
        event_events(open, "message_delta"@, rest.with("usage"@, u)) == seq![
            StreamModel::Usage(usage_of(u)),
        ],
{
    broadcast use json::lemma_get_with;

    lemma_event_names();
}

/// A frame is a failure exactly where its event says so, and it tells its message.
pub proof fn law_errors_are_told(event: Seq<char>, data: JsonModel)
    ensures
        event_error(event, data) is Some <==> event == "error"@,
        data.get("error"@) matches Some(e) ==> (e.get("message"@) matches Some(JsonModel::Str(m))
            ==> event_error("error"@, data) == Some(m)),
{
}

/// A tool call is open from the frame that opens it to the end of its block.
pub proof fn law_call_is_open_to_its_end(open: bool, event: Seq<char>, data: JsonModel)
    ensures
        !event_open(open, "content_block_stop"@, data),
        started((event, data)).len() > 0 ==> event_open(open, event, data),
        event != "content_block_start"@ && event != "content_block_stop"@ ==> event_open(
            open,
            event,
            data,
        ) == open,
        open ==> event_events(open, "content_block_stop"@, data) == seq![StreamModel::ToolCallEnd],
        !open ==> event_events(open, "content_block_stop"@, data).len() == 0,
{
    lemma_event_names();
}

/// Requests go where the configuration says, and to the provider itself where it says
/// nothing or still names the local default.
pub proof fn law_where_requests_go(base_url: Seq<char>)
    ensures
        base_url.len() == 0 ==> base_of(base_url) == "https://api.anthropic.com/v1"@,
        text::contains_str(base_url, "11434"@) ==> base_of(base_url)
            == "https://api.anthropic.com/v1"@,
        base_url.len() > 0 && !text::contains_str(base_url, "11434"@) ==> base_of(
            base_url,
        ).is_prefix_of(base_url) && forall|i: int|
            base_of(base_url).len() <= i < base_url.len() ==> #[trigger] base_url[i] == '/',
{
    text::law_trimming_takes_only_slashes(base_url);
}

} // verus!
