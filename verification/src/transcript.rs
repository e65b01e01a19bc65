//! The lines of a stored conversation: one JSON object per line.
//!
//! Titles are entries too: renaming appends a new one, and the last one wins
//! when the lines are read back, so a transcript only ever grows.
use crate::json;
use crate::json::{Json, JsonModel, JsonObject};
use crate::text;
use crate::types;
use crate::types::{ContentBlock, ContentModel, Message, MessageModel, StopReason, Usage};
use vstd::prelude::*;

verus! {

broadcast use vstd::std_specs::vec::axiom_spec_len;

/// One line of a transcript.
#[derive(Debug, PartialEq)]
pub enum Entry {
    Message(Message),
    /// The older part of the conversation was summarized here.
    Compaction { summary: String, dropped: usize, tokens_before: u32 },
    /// A title; the last one wins.
    Title { text: String },
}

/// What an [`Entry`] holds.
pub enum EntryModel {
    Message(MessageModel),
    Compaction { summary: Seq<char>, dropped: usize, tokens_before: u32 },
    Title { text: Seq<char> },
}

impl Entry {
    pub open spec fn view(&self) -> EntryModel {
        match self {
            Entry::Message(m) => EntryModel::Message(m@),
            Entry::Compaction { summary, dropped, tokens_before } => EntryModel::Compaction {
                summary: summary@,
                dropped: *dropped,
                tokens_before: *tokens_before,
            },
            Entry::Title { text } => EntryModel::Title { text: text@ },
        }
    }
}

/// `body` with the string `value` under `key`, where there is one.
pub open spec fn with_str(body: JsonModel, key: Seq<char>, value: Option<Seq<char>>) -> JsonModel {
    match value {
        Some(v) => body.with(key, JsonModel::Str(v)),
        None => body,
    }
}

fn add_str(body: JsonObject, key: &str, value: &Option<String>) -> (r: JsonObject)
    ensures
        JsonModel::Object(r@) == with_str(JsonModel::Object(body@), key@, text::opt(*value)),
{
    match value {
        Some(v) => body.with(key, Json::string(v.as_str())),
        None => body,
    }
}

pub open spec fn usage_json(u: Usage) -> JsonModel {
    JsonModel::object().with("input"@, JsonModel::integer(u.input as int)).with(
        "output"@,
        JsonModel::integer(u.output as int),
    ).with("cache_read"@, JsonModel::integer(u.cache_read as int)).with(
        "cache_write"@,
        JsonModel::integer(u.cache_write as int),
    )
}

fn encode_usage(u: &Usage) -> (r: Json)
    ensures
        r@ == usage_json(*u),
{
    Json::Object(
        JsonObject::new().with("input", Json::from_u64(u.input as u64)).with(
            "output",
            Json::from_u64(u.output as u64),
        ).with("cache_read", Json::from_u64(u.cache_read as u64)).with(
            "cache_write",
            Json::from_u64(u.cache_write as u64),
        ),
    )
}

pub open spec fn stop_name(s: StopReason) -> Seq<char> {
    match s {
        StopReason::Stop => "stop"@,
        StopReason::Length => "length"@,
        StopReason::ToolUse => "toolUse"@,
        StopReason::Error => "error"@,
        StopReason::Aborted => "aborted"@,
    }
}

fn encode_stop(s: StopReason) -> (r: &'static str)
    ensures
        r@ == stop_name(s),
{
    match s {
        StopReason::Stop => "stop",
        StopReason::Length => "length",
        StopReason::ToolUse => "toolUse",
        StopReason::Error => "error",
        StopReason::Aborted => "aborted",
    }
}

pub open spec fn block_json(b: ContentModel) -> JsonModel {
    match b {
        ContentModel::Text { text } => JsonModel::object().with(
            "type"@,
            JsonModel::Str("text"@),
        ).with("text"@, JsonModel::Str(text)),
        ContentModel::Thinking { text, signature } => with_str(
            JsonModel::object().with("type"@, JsonModel::Str("thinking"@)).with(
                "text"@,
                JsonModel::Str(text),
            ),
            "signature"@,
            signature,
        ),
        ContentModel::ToolCall { id, name, input } => JsonModel::object().with(
            "type"@,
            JsonModel::Str("toolCall"@),
        ).with("id"@, JsonModel::Str(id)).with("name"@, JsonModel::Str(name)).with("input"@, input),
    }
}

pub open spec fn blocks_json(bs: Seq<ContentModel>) -> Seq<JsonModel> {
    Seq::new(bs.len(), |i: int| block_json(bs[i]))
}

fn encode_block(b: &ContentBlock) -> (r: Json)
    ensures
        r@ == block_json(b@),
{
    match b {
        ContentBlock::Text { text } => Json::Object(
            JsonObject::new().with("type", Json::string("text")).with(
                "text",
                Json::string(text.as_str()),
            ),
        ),
        ContentBlock::Thinking { text, signature } => {
            let o = JsonObject::new().with("type", Json::string("thinking")).with(
                "text",
                Json::string(text.as_str()),
            );
            Json::Object(add_str(o, "signature", signature))
        },
        ContentBlock::ToolCall { id, name, input } => Json::Object(
            JsonObject::new().with("type", Json::string("toolCall")).with(
                "id",
                Json::string(id.as_str()),
            ).with("name", Json::string(name.as_str())).with("input", input.clone()),
        ),
    }
}

fn encode_blocks(bs: &Vec<ContentBlock>) -> (r: Json)
    ensures
        r@ == JsonModel::Array(blocks_json(types::contents(bs@))),
{
    let mut out: Vec<Json> = Vec::new();
    let mut i: usize = 0;
    while i < bs.len()
        invariant
            i <= bs@.len(),
            out@.len() == i,
            forall|j: int| 0 <= j < i ==> (#[trigger] out@[j])@ == block_json(bs@[j]@),
        decreases bs@.len() - i,
    {
        out.push(encode_block(&bs[i]));
        i += 1;
    }
    assert(json::models(out@) =~= blocks_json(types::contents(bs@)));
    Json::array(out)
}

/// The members that store a message.
pub open spec fn message_json(m: MessageModel) -> JsonModel {
    match m {
        MessageModel::User { content } => JsonModel::object().with(
            "role"@,
            JsonModel::Str("user"@),
        ).with("content"@, JsonModel::Str(content)),
        MessageModel::Assistant { content, usage, stop_reason, error } => with_str(
            JsonModel::object().with("role"@, JsonModel::Str("assistant"@)).with(
                "content"@,
                JsonModel::Array(blocks_json(content)),
            ).with("usage"@, usage_json(usage)).with(
                "stop_reason"@,
                JsonModel::Str(stop_name(stop_reason)),
            ),
            "error"@,
            error,
        ),
        MessageModel::ToolResult { tool_call_id, tool_name, content, is_error, blob } => with_str(
            JsonModel::object().with("role"@, JsonModel::Str("toolResult"@)).with(
                "tool_call_id"@,
                JsonModel::Str(tool_call_id),
            ).with("tool_name"@, JsonModel::Str(tool_name)).with(
                "content"@,
                JsonModel::Str(content),
            ).with("is_error"@, JsonModel::Bool(is_error)),
            "blob"@,
            blob,
        ),
    }
}

fn message_members(m: &Message) -> (r: JsonObject)
    ensures
        JsonModel::Object(r@) == message_json(m@),
{
    match m {
        Message::User { content } => JsonObject::new().with("role", Json::string("user")).with(
            "content",
            Json::string(content.as_str()),
        ),
        Message::Assistant { content, usage, stop_reason, error } => {
            let o = JsonObject::new().with("role", Json::string("assistant")).with(
                "content",
                encode_blocks(content),
            ).with("usage", encode_usage(usage)).with(
                "stop_reason",
                Json::string(encode_stop(*stop_reason)),
            );
            add_str(o, "error", error)
        },
        Message::ToolResult { tool_call_id, tool_name, content, is_error, blob } => {
            let o = JsonObject::new().with("role", Json::string("toolResult")).with(
                "tool_call_id",
                Json::string(tool_call_id.as_str()),
            ).with("tool_name", Json::string(tool_name.as_str())).with(
                "content",
                Json::string(content.as_str()),
            ).with("is_error", Json::Bool(*is_error));
            add_str(o, "blob", blob)
        },
    }
}

/// The JSON object that stores an entry.
pub open spec fn entry_json(e: EntryModel) -> JsonModel {
    match e {
        EntryModel::Message(m) => message_json(m).with("type"@, JsonModel::Str("message"@)),
        EntryModel::Compaction { summary, dropped, tokens_before } => JsonModel::object().with(
            "type"@,
            JsonModel::Str("compaction"@),
        ).with("summary"@, JsonModel::Str(summary)).with(
            "dropped"@,
            JsonModel::integer(dropped as int),
        ).with("tokens_before"@, JsonModel::integer(tokens_before as int)),
        EntryModel::Title { text } => JsonModel::object().with(
            "type"@,
            JsonModel::Str("title"@),
        ).with("text"@, JsonModel::Str(text)),
    }
}

impl Entry {
    /// The JSON object that stores the entry.
    pub fn to_json(&self) -> (r: Json)
        ensures
            r@ == entry_json(self@),
    {
        match self {
            Entry::Message(m) => Json::Object(
                message_members(m).with("type", Json::string("message")),
            ),
            Entry::Compaction { summary, dropped, tokens_before } => Json::Object(
                JsonObject::new().with("type", Json::string("compaction")).with(
                    "summary",
                    Json::string(summary.as_str()),
                ).with("dropped", Json::from_u64(*dropped as u64)).with(
                    "tokens_before",
                    Json::from_u64(*tokens_before as u64),
                ),
            ),
            Entry::Title { text } => Json::Object(
                JsonObject::new().with("type", Json::string("title")).with(
                    "text",
                    Json::string(text.as_str()),
                ),
            ),
        }
    }

    /// The line that stores the entry, without its end.
    pub fn to_line(&self) -> (r: String)
        ensures
            r@ == line_of(self@),
            !r@.contains('\n'),
            !r@.contains('\r'),
            text::trim(r@).len() > 0,
            storable(self@) ==> reads_back(self@) && line_entry(r@) == Some(self@),
            plain(self@) ==> storable(self@),
    {
        proof {
            if plain(self@) {
                lemma_plain_entry(self@);
            }
            law_entry_round_trip(self@);
        }
        let line = self.to_json().to_text();
        proof {
            text::lemma_not_blank(line@);
        }
        line
    }

    /// What is appended to a transcript to store the entry: its line and the end
    /// of the line. Behind a transcript whose last line is whole, this adds the
    /// entry and changes nothing else.
    pub fn to_record(&self) -> (r: String)
        ensures
            r@ == line_of(self@).push('\n'),
            plain(self@) ==> storable(self@),
            storable(self@) ==> reads_back(self@),
            storable(self@) ==> forall|body: Seq<char>|
                body.len() == 0 || body.last() == '\n' ==> entries_in(
                    #[trigger] text::lines(body + r@),
                ) == entries_in(text::lines(body)).push(self@),
    {
        let line = self.to_line();
        let mut out = line.clone();
        out.push('\n');
        proof {
            assert forall|body: Seq<char>|
                storable(self@) && (body.len() == 0 || body.last() == '\n') implies entries_in(
                #[trigger] text::lines(body + out@),
            ) == entries_in(text::lines(body)).push(self@) by {
                text::lemma_line_appended(body, line@);
                assert(text::lines(body).push(line@).drop_last() =~= text::lines(body));
            }
        }
        out
    }
}

/// An optional string under `key`; nothing where something else stands there.
pub open spec fn opt_str_at(j: JsonModel, key: Seq<char>) -> Option<Option<Seq<char>>> {
    match j.get(key) {
        None => Some(None),
        Some(JsonModel::Null) => Some(None),
        Some(JsonModel::Str(s)) => Some(Some(s)),
        Some(_) => None,
    }
}

fn read_opt_str(j: &Json, key: &str) -> (r: Option<Option<String>>)
    ensures
        match r {
            Some(s) => opt_str_at(j@, key@) == Some(text::opt(s)),
            None => opt_str_at(j@, key@) is None,
        },
{
    match j.get(key) {
        None => Some(None),
        Some(v) => match v {
            Json::Null => Some(None),
            Json::Str(s) => Some(Some(s.clone())),
            _ => None,
        },
    }
}

/// A count under `key`, zero where it is missing.
pub open spec fn count_at(j: JsonModel, key: Seq<char>) -> Option<u32> {
    match j.get(key) {
        None => Some(0),
        Some(v) => match v.as_u64() {
            Some(n) if n <= u32::MAX => Some(n as u32),
            _ => None,
        },
    }
}

fn read_count(j: &Json, key: &str) -> (r: Option<u32>)
    ensures
        r == count_at(j@, key@),
{
    match j.get(key) {
        None => Some(0),
        Some(v) => match v.as_u64() {
            Some(n) => if n <= u32::MAX as u64 {
                Some(n as u32)
            } else {
                None
            },
            None => None,
        },
    }
}

/// The token counts that `j` stores.
pub open spec fn usage_of(j: JsonModel) -> Option<Usage> {
    match (
        j,
        count_at(j, "input"@),
        count_at(j, "output"@),
        count_at(j, "cache_read"@),
        count_at(j, "cache_write"@),
    ) {
        (JsonModel::Object(_), Some(input), Some(output), Some(cache_read), Some(cache_write)) => {
            Some(Usage { input, output, cache_read, cache_write })
        },
        _ => None,
    }
}

fn decode_usage(j: &Json) -> (r: Option<Usage>)
    ensures
        r == usage_of(j@),
{
    match j {
        Json::Object(_) => {},
        _ => {
            return None;
        },
    }
    match (
        read_count(j, "input"),
        read_count(j, "output"),
        read_count(j, "cache_read"),
        read_count(j, "cache_write"),
    ) {
        (Some(input), Some(output), Some(cache_read), Some(cache_write)) => Some(
            Usage { input, output, cache_read, cache_write },
        ),
        _ => None,
    }
}

/// The reason that `s` names.
pub open spec fn stop_of(s: Seq<char>) -> Option<StopReason> {
    if s == "stop"@ {
        Some(StopReason::Stop)
    } else if s == "length"@ {
        Some(StopReason::Length)
    } else if s == "toolUse"@ {
        Some(StopReason::ToolUse)
    } else if s == "error"@ {
        Some(StopReason::Error)
    } else if s == "aborted"@ {
        Some(StopReason::Aborted)
    } else {
        None
    }
}

fn decode_stop(s: &str) -> (r: Option<StopReason>)
    ensures
        r == stop_of(s@),
{
    if text::str_eq(s, "stop") {
        Some(StopReason::Stop)
    } else if text::str_eq(s, "length") {
        Some(StopReason::Length)
    } else if text::str_eq(s, "toolUse") {
        Some(StopReason::ToolUse)
    } else if text::str_eq(s, "error") {
        Some(StopReason::Error)
    } else if text::str_eq(s, "aborted") {
        Some(StopReason::Aborted)
    } else {
        None
    }
}

/// The block that `j` stores.
pub open spec fn block_of(j: JsonModel) -> Option<ContentModel> {
    match j.str_at("type"@) {
        Some(kind) => if kind == "text"@ {
            match j.str_at("text"@) {
                Some(text) => Some(ContentModel::Text { text }),
                None => None,
            }
        } else if kind == "thinking"@ {
            match (j.str_at("text"@), opt_str_at(j, "signature"@)) {
                (Some(text), Some(signature)) => Some(ContentModel::Thinking { text, signature }),
                _ => None,
            }
        } else if kind == "toolCall"@ {
            match (j.str_at("id"@), j.str_at("name"@), j.get("input"@)) {
                (Some(id), Some(name), Some(input)) => Some(
                    ContentModel::ToolCall { id, name, input },
                ),
                _ => None,
            }
        } else {
            None
        },
        None => None,
    }
}

fn decode_block(j: &Json) -> (r: Option<ContentBlock>)
    ensures
        match r {
            Some(b) => block_of(j@) == Some(b@),
            None => block_of(j@) is None,
        },
{
    let kind = match j.str_at("type") {
        Some(k) => k,
        None => {
            return None;
        },
    };
    if text::str_eq(kind, "text") {
        match j.str_at("text") {
            Some(t) => Some(ContentBlock::Text { text: t.to_owned() }),
            None => None,
        }
    } else if text::str_eq(kind, "thinking") {
        match (j.str_at("text"), read_opt_str(j, "signature")) {
            (Some(t), Some(signature)) => Some(
                ContentBlock::Thinking { text: t.to_owned(), signature },
            ),
            _ => None,
        }
    } else if text::str_eq(kind, "toolCall") {
        match (j.str_at("id"), j.str_at("name"), j.get("input")) {
            (Some(id), Some(name), Some(input)) => Some(
                ContentBlock::ToolCall {
                    id: id.to_owned(),
                    name: name.to_owned(),
                    input: input.clone(),
                },
            ),
            _ => None,
        }
    } else {
        None
    }
}

/// The blocks that `items` store, where every one of them does store one.
pub open spec fn blocks_of(items: Seq<JsonModel>) -> Option<Seq<ContentModel>>
    decreases items.len(),
{
    if items.len() == 0 {
        Some(Seq::empty())
    } else {
        match (blocks_of(items.drop_last()), block_of(items.last())) {
            (Some(bs), Some(b)) => Some(bs.push(b)),
            _ => None,
        }
    }
}

proof fn lemma_blocks_of_fails(items: Seq<JsonModel>, i: int)
    requires
        0 <= i < items.len(),
        block_of(items[i]) is None,
    ensures
        blocks_of(items) is None,
    decreases items.len(),
{
    if i < items.len() - 1 {
        lemma_blocks_of_fails(items.drop_last(), i);
    }
}

fn decode_blocks(items: &Vec<Json>) -> (r: Option<Vec<ContentBlock>>)
    ensures
        match r {
            Some(bs) => blocks_of(json::models(items@)) == Some(types::contents(bs@)),
            None => blocks_of(json::models(items@)) is None,
        },
{
    let ghost all = json::models(items@);
    let mut out: Vec<ContentBlock> = Vec::new();
    let mut i: usize = 0;
    assert(all.take(0) =~= Seq::empty());
    assert(types::contents(out@) =~= Seq::empty());
    while i < items.len()
        invariant
            i <= items@.len(),
            all == json::models(items@),
            blocks_of(all.take(i as int)) == Some(types::contents(out@)),
        decreases items@.len() - i,
    {
        assert(all.take(i + 1).drop_last() =~= all.take(i as int));
        assert(all.take(i + 1).last() == items@[i as int]@);
        let ghost before = out@;
        match decode_block(&items[i]) {
            Some(b) => {
                out.push(b);
                assert(types::contents(out@) =~= types::contents(before).push(b@));
            },
            None => {
                proof {
                    lemma_blocks_of_fails(all, i as int);
                }
                return None;
            },
        }
        i += 1;
    }
    assert(all.take(i as int) =~= all);
    Some(out)
}

/// The blocks under `content`.
pub open spec fn content_of(j: JsonModel) -> Option<Seq<ContentModel>> {
    match j.get("content"@) {
        Some(v) => match v.as_array() {
            Some(items) => blocks_of(items),
            None => None,
        },
        None => None,
    }
}

fn decode_content(j: &Json) -> (r: Option<Vec<ContentBlock>>)
    ensures
        match r {
            Some(bs) => content_of(j@) == Some(types::contents(bs@)),
            None => content_of(j@) is None,
        },
{
    match j.get("content") {
        Some(v) => match v.as_array() {
            Some(items) => decode_blocks(items),
            None => None,
        },
        None => None,
    }
}

/// The token counts under `usage`, none where it is missing.
pub open spec fn stored_usage(j: JsonModel) -> Option<Usage> {
    match j.get("usage"@) {
        Some(u) => usage_of(u),
        None => Some(Usage::zero()),
    }
}

/// The reason under `stop_reason`.
pub open spec fn stored_stop(j: JsonModel) -> Option<StopReason> {
    match j.str_at("stop_reason"@) {
        Some(s) => stop_of(s),
        None => None,
    }
}

/// The flag under `is_error`, off where it is missing.
pub open spec fn stored_flag(j: JsonModel) -> Option<bool> {
    match j.get("is_error"@) {
        Some(v) => v.as_bool(),
        None => Some(false),
    }
}

/// The message that `j` stores.
pub open spec fn message_of(j: JsonModel) -> Option<MessageModel> {
    match j.str_at("role"@) {
        Some(role) => if role == "user"@ {
            match j.str_at("content"@) {
                Some(content) => Some(MessageModel::User { content }),
                None => None,
            }
        } else if role == "assistant"@ {
            match (content_of(j), stored_usage(j), stored_stop(j), opt_str_at(j, "error"@)) {
                (Some(content), Some(usage), Some(stop_reason), Some(error)) => Some(
                    MessageModel::Assistant { content, usage, stop_reason, error },
                ),
                _ => None,
            }
        } else if role == "toolResult"@ {
            match (
                j.str_at("tool_call_id"@),
                j.str_at("tool_name"@),
                j.str_at("content"@),
                stored_flag(j),
                opt_str_at(j, "blob"@),
            ) {
                (
                    Some(tool_call_id),
                    Some(tool_name),
                    Some(content),
                    Some(is_error),
                    Some(blob),
                ) => Some(
                    MessageModel::ToolResult { tool_call_id, tool_name, content, is_error, blob },
                ),
                _ => None,
            }
        } else {
            None
        },
        None => None,
    }
}

fn decode_message(j: &Json) -> (r: Option<Message>)
    ensures
        match r {
            Some(m) => message_of(j@) == Some(m@),
            None => message_of(j@) is None,
        },
{
    let role = match j.str_at("role") {
        Some(s) => s,
        None => {
            return None;
        },
    };
    if text::str_eq(role, "user") {
        match j.str_at("content") {
            Some(c) => Some(Message::User { content: c.to_owned() }),
            None => None,
        }
    } else if text::str_eq(role, "assistant") {
        let usage = match j.get("usage") {
            Some(u) => decode_usage(u),
            None => Some(Usage::default()),
        };
        let stop = match j.str_at("stop_reason") {
            Some(s) => decode_stop(s),
            None => None,
        };
        match (decode_content(j), usage, stop, read_opt_str(j, "error")) {
            (Some(content), Some(usage), Some(stop_reason), Some(error)) => Some(
                Message::Assistant { content, usage, stop_reason, error },
            ),
            _ => None,
        }
    } else if text::str_eq(role, "toolResult") {
        let flag = match j.get("is_error") {
            Some(v) => v.as_bool(),
            None => Some(false),
        };
        match (
            j.str_at("tool_call_id"),
            j.str_at("tool_name"),
            j.str_at("content"),
            flag,
            read_opt_str(j, "blob"),
        ) {
            (Some(id), Some(name), Some(content), Some(is_error), Some(blob)) => Some(
                Message::ToolResult {
                    tool_call_id: id.to_owned(),
                    tool_name: name.to_owned(),
                    content: content.to_owned(),
                    is_error,
                    blob,
                },
            ),
            _ => None,
        }
    } else {
        None
    }
}

/// The entry that `j` stores.
pub open spec fn entry_of(j: JsonModel) -> Option<EntryModel> {
    match j.str_at("type"@) {
        Some(kind) => if kind == "message"@ {
            match message_of(j) {
                Some(m) => Some(EntryModel::Message(m)),
                None => None,
            }
        } else if kind == "compaction"@ {
            match (j.str_at("summary"@), j.get("dropped"@), j.get("tokens_before"@)) {
                (Some(summary), Some(d), Some(t)) => match (d.as_u64(), t.as_u64()) {
                    (Some(dropped), Some(tokens)) => if dropped <= usize::MAX && tokens
                        <= u32::MAX {
                        Some(
                            EntryModel::Compaction {
                                summary,
                                dropped: dropped as usize,
                                tokens_before: tokens as u32,
                            },
                        )
                    } else {
                        None
                    },
                    _ => None,
                },
                _ => None,
            }
        } else if kind == "title"@ {
            match j.str_at("text"@) {
                Some(text) => Some(EntryModel::Title { text }),
                None => None,
            }
        } else {
            None
        },
        None => None,
    }
}

/// The entry that a line stores; blank lines and lines that are no entry store
/// none.
pub open spec fn line_entry(line: Seq<char>) -> Option<EntryModel> {
    if text::trim(line).len() == 0 {
        None
    } else {
        match json::json_parsed(line) {
            Some(j) => entry_of(j),
            None => None,
        }
    }
}

/// The entries that lines of text store; a line that stores none is passed over.
pub open spec fn entries_in(ls: Seq<Seq<char>>) -> Seq<EntryModel>
    decreases ls.len(),
{
    if ls.len() == 0 {
        Seq::empty()
    } else {
        match line_entry(ls.last()) {
            Some(e) => entries_in(ls.drop_last()).push(e),
            None => entries_in(ls.drop_last()),
        }
    }
}

impl Entry {
    /// The entry that `j` stores.
    pub fn from_json(j: &Json) -> (r: Option<Entry>)
        ensures
            match r {
                Some(e) => entry_of(j@) == Some(e@),
                None => entry_of(j@) is None,
            },
    {
        let kind = match j.str_at("type") {
            Some(k) => k,
            None => {
                return None;
            },
        };
        if text::str_eq(kind, "message") {
            match decode_message(j) {
                Some(m) => Some(Entry::Message(m)),
                None => None,
            }
        } else if text::str_eq(kind, "compaction") {
            match (j.str_at("summary"), j.get("dropped"), j.get("tokens_before")) {
                (Some(summary), Some(d), Some(t)) => match (d.as_u64(), t.as_u64()) {
                    (Some(dropped), Some(tokens)) => if dropped <= usize::MAX as u64 && tokens
                        <= u32::MAX as u64 {
                        Some(
                            Entry::Compaction {
                                summary: summary.to_owned(),
                                dropped: dropped as usize,
                                tokens_before: tokens as u32,
                            },
                        )
                    } else {
                        None
                    },
                    _ => None,
                },
                _ => None,
            }
        } else if text::str_eq(kind, "title") {
            match j.str_at("text") {
                Some(t) => Some(Entry::Title { text: t.to_owned() }),
                None => None,
            }
        } else {
            None
        }
    }

    /// The entry that a line stores.
    pub fn from_line(line: &str) -> (r: Option<Entry>)
        ensures
            match r {
                Some(e) => line_entry(line@) == Some(e@),
                None => line_entry(line@) is None,
            },
    {
        let t = text::trimmed(line);
        if t.as_str().is_empty() {
            return None;
        }
        match json::parse(line) {
            Some(j) => Entry::from_json(&j),
            None => None,
        }
    }
}

/// An entry whose JSON is read back from its text as it was written.
pub open spec fn storable(e: EntryModel) -> bool {
    json::json_parsed(json::json_text(entry_json(e))) == Some(entry_json(e))
}

/// The text of an entry's line, without its end.
pub open spec fn line_of(e: EntryModel) -> Seq<char> {
    json::json_text(entry_json(e))
}

/// An entry whose line is one line, and is read as the entry.
pub open spec fn reads_back(e: EntryModel) -> bool {
    &&& storable(e)
    &&& !line_of(e).contains('\n')
    &&& !line_of(e).contains('\r')
    &&& text::trim(line_of(e)).len() > 0
}

/// An entry is read from the line that stores it.
pub proof fn lemma_reads_back(e: EntryModel)
    requires
        reads_back(e),
    ensures
        line_entry(line_of(e)) == Some(e),
{
    law_entry_round_trip(e);
}

/// Where `b` is a tool call, its input holds no fractions and no object that starts
/// with the reader's own mark, and leaves room for the three levels that the line
/// adds around it.
pub open spec fn plain_block(b: ContentModel) -> bool {
    match b {
        ContentModel::ToolCall { input, .. } => json::is_plain(input, 124),
        _ => true,
    }
}

/// What is certain to be read back from its line: everything but tool calls
/// whose input holds fractions, which the reader may round, holds an object that
/// starts with the reader's own mark, or is nested so deep that the line would
/// exceed what the reader admits.
pub open spec fn plain(e: EntryModel) -> bool {
    match e {
        EntryModel::Message(MessageModel::Assistant { content, .. }) => forall|i: int|
            0 <= i < content.len() ==> plain_block(#[trigger] content[i]),
        _ => true,
    }
}

proof fn lemma_object_plain(depth: nat)
    requires
        depth > 0,
    ensures
        json::is_plain(JsonModel::object(), depth),
{
}

/// No key that is written here is the reader's own mark.
proof fn lemma_keys_are_ordinary()
    ensures
        "blob"@ != json::raw_mark(),
        "cache_read"@ != json::raw_mark(),
        "cache_write"@ != json::raw_mark(),
        "content"@ != json::raw_mark(),
        "dropped"@ != json::raw_mark(),
        "error"@ != json::raw_mark(),
        "id"@ != json::raw_mark(),
        "input"@ != json::raw_mark(),
        "is_error"@ != json::raw_mark(),
        "name"@ != json::raw_mark(),
        "output"@ != json::raw_mark(),
        "role"@ != json::raw_mark(),
        "signature"@ != json::raw_mark(),
        "stop_reason"@ != json::raw_mark(),
        "summary"@ != json::raw_mark(),
        "text"@ != json::raw_mark(),
        "tokens_before"@ != json::raw_mark(),
        "tool_call_id"@ != json::raw_mark(),
        "tool_name"@ != json::raw_mark(),
        "type"@ != json::raw_mark(),
        "usage"@ != json::raw_mark(),
{
    reveal_strlit("$serde_json::private::RawValue");
    assert(json::raw_mark().len() == 30);
    reveal_strlit("blob");
    assert("blob"@.len() == 4);
    reveal_strlit("cache_read");
    assert("cache_read"@.len() == 10);
    reveal_strlit("cache_write");
    assert("cache_write"@.len() == 11);
    reveal_strlit("content");
    assert("content"@.len() == 7);
    reveal_strlit("dropped");
    assert("dropped"@.len() == 7);
    reveal_strlit("error");
    assert("error"@.len() == 5);
    reveal_strlit("id");
    assert("id"@.len() == 2);
    reveal_strlit("input");
    assert("input"@.len() == 5);
    reveal_strlit("is_error");
    assert("is_error"@.len() == 8);
    reveal_strlit("name");
    assert("name"@.len() == 4);
    reveal_strlit("output");
    assert("output"@.len() == 6);
    reveal_strlit("role");
    assert("role"@.len() == 4);
    reveal_strlit("signature");
    assert("signature"@.len() == 9);
    reveal_strlit("stop_reason");
    assert("stop_reason"@.len() == 11);
    reveal_strlit("summary");
    assert("summary"@.len() == 7);
    reveal_strlit("text");
    assert("text"@.len() == 4);
    reveal_strlit("tokens_before");
    assert("tokens_before"@.len() == 13);
    reveal_strlit("tool_call_id");
    assert("tool_call_id"@.len() == 12);
    reveal_strlit("tool_name");
    assert("tool_name"@.len() == 9);
    reveal_strlit("type");
    assert("type"@.len() == 4);
    reveal_strlit("usage");
    assert("usage"@.len() == 5);
}

proof fn lemma_plain_entry(e: EntryModel)
    requires
        plain(e),
    ensures
        json::is_plain(entry_json(e), json::MAX_DEPTH as nat),
{
    broadcast use json::lemma_plain_with;

    lemma_keys_are_ordinary();
    lemma_object_plain(127);
    lemma_object_plain(126);
    lemma_object_plain(125);
    if let EntryModel::Message(m) = e {
        if let MessageModel::Assistant { content, usage, .. } = m {
            let items = blocks_json(content);
            assert forall|i: int| 0 <= i < items.len() implies json::is_plain(
                #[trigger] items[i],
                125,
            ) by {
                assert(plain_block(content[i]));
                assert(items[i] == block_json(content[i]));
            }
            assert(json::is_plain(JsonModel::Array(items), 126));
            assert(json::is_plain(usage_json(usage), 126));
        }
        assert(json::is_plain(message_json(m), 127));
    }
}

proof fn lemma_literals()
    ensures
        "type"@.len() == 4,
        "text"@.len() == 4,
        "type"@[1] == 'y',
        "text"@[1] == 'e',
        "role"@.len() == 4,
        "role"@[0] == 'r',
        "type"@[0] == 't',
        "name"@.len() == 4,
        "name"@[0] == 'n',
        "blob"@.len() == 4,
        "blob"@[0] == 'b',
        "id"@.len() == 2,
        "input"@.len() == 5,
        "usage"@.len() == 5,
        "error"@.len() == 5,
        "input"@[0] == 'i',
        "usage"@[0] == 'u',
        "error"@[0] == 'e',
        "output"@.len() == 6,
        "content"@.len() == 7,
        "summary"@.len() == 7,
        "dropped"@.len() == 7,
        "content"@[0] == 'c',
        "summary"@[0] == 's',
        "dropped"@[0] == 'd',
        "is_error"@.len() == 8,
        "tool_name"@.len() == 9,
        "signature"@.len() == 9,
        "cache_read"@.len() == 10,
        "cache_write"@.len() == 11,
        "stop_reason"@.len() == 11,
        "tool_call_id"@.len() == 12,
        "tokens_before"@.len() == 13,
        "stop"@.len() == 4,
        "length"@.len() == 6,
        "toolUse"@.len() == 7,
        "aborted"@.len() == 7,
        "toolUse"@[0] == 't',
        "aborted"@[0] == 'a',
        "thinking"@.len() == 8,
        "toolCall"@.len() == 8,
        "thinking"@[1] == 'h',
        "toolCall"@[1] == 'o',
        "user"@.len() == 4,
        "assistant"@.len() == 9,
        "toolResult"@.len() == 10,
        "message"@.len() == 7,
        "compaction"@.len() == 10,
        "title"@.len() == 5,
{
    reveal_strlit("type");
    reveal_strlit("text");
    reveal_strlit("role");
    reveal_strlit("name");
    reveal_strlit("blob");
    reveal_strlit("id");
    reveal_strlit("input");
    reveal_strlit("usage");
    reveal_strlit("error");
    reveal_strlit("output");
    reveal_strlit("content");
    reveal_strlit("summary");
    reveal_strlit("dropped");
    reveal_strlit("is_error");
    reveal_strlit("tool_name");
    reveal_strlit("signature");
    reveal_strlit("cache_read");
    reveal_strlit("cache_write");
    reveal_strlit("stop_reason");
    reveal_strlit("tool_call_id");
    reveal_strlit("tokens_before");
    reveal_strlit("stop");
    reveal_strlit("length");
    reveal_strlit("toolUse");
    reveal_strlit("aborted");
    reveal_strlit("thinking");
    reveal_strlit("toolCall");
    reveal_strlit("user");
    reveal_strlit("assistant");
    reveal_strlit("toolResult");
    reveal_strlit("message");
    reveal_strlit("compaction");
    reveal_strlit("title");
}

proof fn lemma_usage_round_trip(u: Usage)
    ensures
        usage_of(usage_json(u)) == Some(u),
{
    broadcast use json::lemma_get_with;

    lemma_literals();
}

proof fn lemma_block_round_trip(b: ContentModel)
    ensures
        block_of(block_json(b)) == Some(b),
{
    broadcast use json::lemma_get_with;

    lemma_literals();
}

proof fn lemma_blocks_round_trip(bs: Seq<ContentModel>)
    ensures
        blocks_of(blocks_json(bs)) == Some(bs),
    decreases bs.len(),
{
    if bs.len() > 0 {
        lemma_blocks_round_trip(bs.drop_last());
        lemma_block_round_trip(bs.last());
        assert(blocks_json(bs).drop_last() =~= blocks_json(bs.drop_last()));
        assert(bs.drop_last().push(bs.last()) =~= bs);
    } else {
        assert(bs =~= Seq::empty());
    }
}

/// Every entry is read back from the object that stores it.
pub proof fn law_entry_round_trip(e: EntryModel)
    ensures
        entry_of(entry_json(e)) == Some(e),
{
    broadcast use json::lemma_get_with;

    lemma_literals();
    if let EntryModel::Message(MessageModel::Assistant { content, usage, .. }) = e {
        lemma_blocks_round_trip(content);
        lemma_usage_round_trip(usage);
    }
}

/// The keys differ from each other.
proof fn lemma_stored_keys()
    ensures
        "type"@ != "role"@,
        "type"@ != "content"@,
        "type"@ != "usage"@,
        "type"@ != "stop_reason"@,
        "type"@ != "error"@,
        "type"@ != "tool_call_id"@,
        "type"@ != "tool_name"@,
        "type"@ != "is_error"@,
        "type"@ != "blob"@,
        "type"@ != "summary"@,
        "type"@ != "dropped"@,
        "type"@ != "tokens_before"@,
        "type"@ != "text"@,
        "type"@ != "id"@,
        "type"@ != "name"@,
        "type"@ != "input"@,
        "type"@ != "signature"@,
        "type"@ != "output"@,
        "type"@ != "cache_read"@,
        "type"@ != "cache_write"@,
        "role"@ != "content"@,
        "role"@ != "usage"@,
        "role"@ != "stop_reason"@,
        "role"@ != "error"@,
        "role"@ != "tool_call_id"@,
        "role"@ != "tool_name"@,
        "role"@ != "is_error"@,
        "role"@ != "blob"@,
        "role"@ != "summary"@,
        "role"@ != "dropped"@,
        "role"@ != "tokens_before"@,
        "role"@ != "text"@,
        "role"@ != "id"@,
        "role"@ != "name"@,
        "role"@ != "input"@,
        "role"@ != "signature"@,
        "role"@ != "output"@,
        "role"@ != "cache_read"@,
        "role"@ != "cache_write"@,
        "content"@ != "usage"@,
        "content"@ != "stop_reason"@,
        "content"@ != "error"@,
        "content"@ != "tool_call_id"@,
        "content"@ != "tool_name"@,
        "content"@ != "is_error"@,
        "content"@ != "blob"@,
        "content"@ != "summary"@,
        "content"@ != "dropped"@,
        "content"@ != "tokens_before"@,
        "content"@ != "text"@,
        "content"@ != "id"@,
        "content"@ != "name"@,
        "content"@ != "input"@,
        "content"@ != "signature"@,
        "content"@ != "output"@,
        "content"@ != "cache_read"@,
        "content"@ != "cache_write"@,
        "usage"@ != "stop_reason"@,
        "usage"@ != "error"@,
        "usage"@ != "tool_call_id"@,
        "usage"@ != "tool_name"@,
        "usage"@ != "is_error"@,
        "usage"@ != "blob"@,
        "usage"@ != "summary"@,
        "usage"@ != "dropped"@,
        "usage"@ != "tokens_before"@,
        "usage"@ != "text"@,
        "usage"@ != "id"@,
        "usage"@ != "name"@,
        "usage"@ != "input"@,
        "usage"@ != "signature"@,
        "usage"@ != "output"@,
        "usage"@ != "cache_read"@,
        "usage"@ != "cache_write"@,
        "stop_reason"@ != "error"@,
        "stop_reason"@ != "tool_call_id"@,
        "stop_reason"@ != "tool_name"@,
        "stop_reason"@ != "is_error"@,
        "stop_reason"@ != "blob"@,
        "stop_reason"@ != "summary"@,
        "stop_reason"@ != "dropped"@,
        "stop_reason"@ != "tokens_before"@,
        "stop_reason"@ != "text"@,
        "stop_reason"@ != "id"@,
        "stop_reason"@ != "name"@,
        "stop_reason"@ != "input"@,
        "stop_reason"@ != "signature"@,
        "stop_reason"@ != "output"@,
        "stop_reason"@ != "cache_read"@,
        "stop_reason"@ != "cache_write"@,
        "error"@ != "tool_call_id"@,
        "error"@ != "tool_name"@,
        "error"@ != "is_error"@,
        "error"@ != "blob"@,
        "error"@ != "summary"@,
        "error"@ != "dropped"@,
        "error"@ != "tokens_before"@,
        "error"@ != "text"@,
        "error"@ != "id"@,
        "error"@ != "name"@,
        "error"@ != "input"@,
        "error"@ != "signature"@,
        "error"@ != "output"@,
        "error"@ != "cache_read"@,
        "error"@ != "cache_write"@,
        "tool_call_id"@ != "tool_name"@,
        "tool_call_id"@ != "is_error"@,
        "tool_call_id"@ != "blob"@,
        "tool_call_id"@ != "summary"@,
        "tool_call_id"@ != "dropped"@,
        "tool_call_id"@ != "tokens_before"@,
        "tool_call_id"@ != "text"@,
        "tool_call_id"@ != "id"@,
        "tool_call_id"@ != "name"@,
        "tool_call_id"@ != "input"@,
        "tool_call_id"@ != "signature"@,
        "tool_call_id"@ != "output"@,
        "tool_call_id"@ != "cache_read"@,
        "tool_call_id"@ != "cache_write"@,
        "tool_name"@ != "is_error"@,
        "tool_name"@ != "blob"@,
        "tool_name"@ != "summary"@,
        "tool_name"@ != "dropped"@,
        "tool_name"@ != "tokens_before"@,
        "tool_name"@ != "text"@,
        "tool_name"@ != "id"@,
        "tool_name"@ != "name"@,
        "tool_name"@ != "input"@,
        "tool_name"@ != "signature"@,
        "tool_name"@ != "output"@,
        "tool_name"@ != "cache_read"@,
        "tool_name"@ != "cache_write"@,
        "is_error"@ != "blob"@,
        "is_error"@ != "summary"@,
        "is_error"@ != "dropped"@,
        "is_error"@ != "tokens_before"@,
        "is_error"@ != "text"@,
        "is_error"@ != "id"@,
        "is_error"@ != "name"@,
        "is_error"@ != "input"@,
        "is_error"@ != "signature"@,
        "is_error"@ != "output"@,
        "is_error"@ != "cache_read"@,
        "is_error"@ != "cache_write"@,
        "blob"@ != "summary"@,
        "blob"@ != "dropped"@,
        "blob"@ != "tokens_before"@,
        "blob"@ != "text"@,
        "blob"@ != "id"@,
        "blob"@ != "name"@,
        "blob"@ != "input"@,
        "blob"@ != "signature"@,
        "blob"@ != "output"@,
        "blob"@ != "cache_read"@,
        "blob"@ != "cache_write"@,
        "summary"@ != "dropped"@,
        "summary"@ != "tokens_before"@,
        "summary"@ != "text"@,
        "summary"@ != "id"@,
        "summary"@ != "name"@,
        "summary"@ != "input"@,
        "summary"@ != "signature"@,
        "summary"@ != "output"@,
        "summary"@ != "cache_read"@,
        "summary"@ != "cache_write"@,
        "dropped"@ != "tokens_before"@,
        "dropped"@ != "text"@,
        "dropped"@ != "id"@,
        "dropped"@ != "name"@,
        "dropped"@ != "input"@,
        "dropped"@ != "signature"@,
        "dropped"@ != "output"@,
        "dropped"@ != "cache_read"@,
        "dropped"@ != "cache_write"@,
        "tokens_before"@ != "text"@,
        "tokens_before"@ != "id"@,
        "tokens_before"@ != "name"@,
        "tokens_before"@ != "input"@,
        "tokens_before"@ != "signature"@,
        "tokens_before"@ != "output"@,
        "tokens_before"@ != "cache_read"@,
        "tokens_before"@ != "cache_write"@,
        "text"@ != "id"@,
        "text"@ != "name"@,
        "text"@ != "input"@,
        "text"@ != "signature"@,
        "text"@ != "output"@,
        "text"@ != "cache_read"@,
        "text"@ != "cache_write"@,
        "id"@ != "name"@,
        "id"@ != "input"@,
        "id"@ != "signature"@,
        "id"@ != "output"@,
        "id"@ != "cache_read"@,
        "id"@ != "cache_write"@,
        "name"@ != "input"@,
        "name"@ != "signature"@,
        "name"@ != "output"@,
        "name"@ != "cache_read"@,
        "name"@ != "cache_write"@,
        "input"@ != "signature"@,
        "input"@ != "output"@,
        "input"@ != "cache_read"@,
        "input"@ != "cache_write"@,
        "signature"@ != "output"@,
        "signature"@ != "cache_read"@,
        "signature"@ != "cache_write"@,
        "output"@ != "cache_read"@,
        "output"@ != "cache_write"@,
        "cache_read"@ != "cache_write"@,
{
    reveal_strlit("type");
    reveal_strlit("role");
    reveal_strlit("content");
    reveal_strlit("usage");
    reveal_strlit("stop_reason");
    reveal_strlit("error");
    reveal_strlit("tool_call_id");
    reveal_strlit("tool_name");
    reveal_strlit("is_error");
    reveal_strlit("blob");
    reveal_strlit("summary");
    reveal_strlit("dropped");
    reveal_strlit("tokens_before");
    reveal_strlit("text");
    reveal_strlit("id");
    reveal_strlit("name");
    reveal_strlit("input");
    reveal_strlit("signature");
    reveal_strlit("output");
    reveal_strlit("cache_read");
    reveal_strlit("cache_write");
    assert("type"@.len() == 4);
    assert("role"@.len() == 4);
    assert("content"@.len() == 7);
    assert("usage"@.len() == 5);
    assert("stop_reason"@.len() == 11);
    assert("error"@.len() == 5);
    assert("tool_call_id"@.len() == 12);
    assert("tool_name"@.len() == 9);
    assert("is_error"@.len() == 8);
    assert("blob"@.len() == 4);
    assert("summary"@.len() == 7);
    assert("dropped"@.len() == 7);
    assert("tokens_before"@.len() == 13);
    assert("text"@.len() == 4);
    assert("id"@.len() == 2);
    assert("name"@.len() == 4);
    assert("input"@.len() == 5);
    assert("signature"@.len() == 9);
    assert("output"@.len() == 6);
    assert("cache_read"@.len() == 10);
    assert("cache_write"@.len() == 11);
    assert("type"@[0] == 't' && "role"@[0] == 'r');
    assert("type"@[0] == 't' && "blob"@[0] == 'b');
    assert("type"@[1] == 'y' && "text"@[1] == 'e');
    assert("type"@[0] == 't' && "name"@[0] == 'n');
    assert("role"@[0] == 'r' && "blob"@[0] == 'b');
    assert("role"@[0] == 'r' && "text"@[0] == 't');
    assert("role"@[0] == 'r' && "name"@[0] == 'n');
    assert("content"@[0] == 'c' && "summary"@[0] == 's');
    assert("content"@[0] == 'c' && "dropped"@[0] == 'd');
    assert("usage"@[0] == 'u' && "error"@[0] == 'e');
    assert("usage"@[0] == 'u' && "input"@[0] == 'i');
    assert("stop_reason"@[0] == 's' && "cache_write"@[0] == 'c');
    assert("error"@[0] == 'e' && "input"@[0] == 'i');
    assert("tool_name"@[0] == 't' && "signature"@[0] == 's');
    assert("blob"@[0] == 'b' && "text"@[0] == 't');
    assert("blob"@[0] == 'b' && "name"@[0] == 'n');
    assert("summary"@[0] == 's' && "dropped"@[0] == 'd');
    assert("text"@[0] == 't' && "name"@[0] == 'n');
}

/// A stored message holds all that the message holds, under its role.
pub proof fn law_messages_are_stored_whole(m: MessageModel)
    ensures
        ({
            let j = entry_json(EntryModel::Message(m));
            &&& j.get("type"@) == Some(JsonModel::Str("message"@))
            &&& match m {
                MessageModel::User { content } => {
                    &&& j.get("role"@) == Some(JsonModel::Str("user"@))
                    &&& j.get("content"@) == Some(JsonModel::Str(content))
                },
                MessageModel::Assistant { content, usage, stop_reason, error } => {
                    &&& j.get("role"@) == Some(JsonModel::Str("assistant"@))
                    &&& j.get("content"@) matches Some(JsonModel::Array(items))
                    &&& items.len() == content.len()
                    &&& forall|i: int|
                        0 <= i < items.len() ==> #[trigger] items[i] == block_json(content[i])
                    &&& j.get("error"@) == (match error {
                        Some(e) => Some(JsonModel::Str(e)),
                        None => None,
                    })
                    &&& j.get("stop_reason"@) == Some(JsonModel::Str(stop_name(stop_reason)))
                    &&& j.get("usage"@) matches Some(u)
                    &&& u.get("input"@) == Some(JsonModel::integer(usage.input as int))
                    &&& u.get("output"@) == Some(JsonModel::integer(usage.output as int))
                    &&& u.get("cache_read"@) == Some(JsonModel::integer(usage.cache_read as int))
                    &&& u.get("cache_write"@) == Some(JsonModel::integer(usage.cache_write as int))
                },
                MessageModel::ToolResult { tool_call_id, tool_name, content, is_error, blob } => {
                    &&& j.get("role"@) == Some(JsonModel::Str("toolResult"@))
                    &&& j.get("tool_call_id"@) == Some(JsonModel::Str(tool_call_id))
                    &&& j.get("tool_name"@) == Some(JsonModel::Str(tool_name))
                    &&& j.get("content"@) == Some(JsonModel::Str(content))
                    &&& j.get("is_error"@) == Some(JsonModel::Bool(is_error))
                    &&& j.get("blob"@) == (match blob {
                        Some(b) => Some(JsonModel::Str(b)),
                        None => None,
                    })
                },
            }
        }),
{
    broadcast use json::lemma_get_with;

    lemma_stored_keys();
}

/// A stored block holds all that the block holds.
pub proof fn law_blocks_are_stored_whole(b: ContentModel)
    ensures
        match b {
            ContentModel::Text { text } => block_json(b).get("type"@) == Some(
                JsonModel::Str("text"@),
            ) && block_json(b).get("text"@) == Some(JsonModel::Str(text)),
            ContentModel::Thinking { text, signature } => block_json(b).get("type"@) == Some(
                JsonModel::Str("thinking"@),
            ) && block_json(b).get("text"@) == Some(JsonModel::Str(text)) && block_json(b).get(
                "signature"@,
            ) == (match signature {
                Some(s) => Some(JsonModel::Str(s)),
                None => None,
            }),
            ContentModel::ToolCall { id, name, input } => block_json(b).get("type"@) == Some(
                JsonModel::Str("toolCall"@),
            ) && block_json(b).get("id"@) == Some(JsonModel::Str(id)) && block_json(b).get("name"@)
                == Some(JsonModel::Str(name)) && block_json(b).get("input"@) == Some(input),
        },
{
    broadcast use json::lemma_get_with;

    lemma_stored_keys();
}

/// Every line that can be read is an entry, in order, and the others are passed over.
pub proof fn law_lines_are_read_one_by_one(ls: Seq<Seq<char>>)
    ensures
        entries_in(ls) == ls.filter_map(|l: Seq<char>| line_entry(l)),
    decreases ls.len(),
{
    if ls.len() > 0 {
        law_lines_are_read_one_by_one(ls.drop_last());
    }
}

/// What an older record leaves out is read as nothing: no tokens, no failure, no error.
pub proof fn law_missing_members_are_nothing(j: JsonModel, key: Seq<char>)
    ensures
        j.get("usage"@) is None ==> stored_usage(j) == Some(Usage::zero()),
        j.get("is_error"@) is None ==> stored_flag(j) == Some(false),
        j.get(key) is None || j.get(key) == Some(JsonModel::Null) ==> opt_str_at(j, key) == Some(
            None::<Seq<char>>,
        ),
        j.get(key) is None ==> count_at(j, key) == Some(0u32),
{
}

} // verus!
