//! The Telegram bridge: what is made of an update, and how a reply is sent.
//!
//! The bridge polls, so it needs no open port and no public address.
use crate::json;
use crate::json::{Json, JsonModel, JsonObject};
use crate::text;
use vstd::prelude::*;

verus! {

broadcast use vstd::std_specs::vec::axiom_spec_len;

/// Telegram rejects messages over 4096 characters.
pub const MAX_MESSAGE_CHARS: usize = 4000;

/// What is said where the token is missing.
pub fn token_missing(token_env: &str) -> (r: String)
    ensures
        r@ == "set "@ + token_env@ + " to your bot token (config: telegram.token_env)"@,
{
    let mut out = "set ".to_owned();
    out.push_str(token_env);
    out.push_str(" to your bot token (config: telegram.token_env)");
    out
}

/// Where requests of the bot with this token go.
pub fn api_url(token: &str) -> (r: String)
    ensures
        r@ == "https://api.telegram.org/bot"@ + token@,
{
    let mut out = "https://api.telegram.org/bot".to_owned();
    out.push_str(token);
    out
}

/// How long a request may take: longer than a poll, or every poll would be cut off.
pub fn request_timeout_secs(poll_timeout_secs: u32) -> (r: u64)
    ensures
        r == poll_timeout_secs + 15,
{
    poll_timeout_secs as u64 + 15
}

/// What an update asks for.
#[derive(Debug, PartialEq)]
pub enum Incoming {
    /// Nothing that concerns the bot.
    Nothing,
    /// A message that is no text: it is answered so.
    NotText { chat_id: i64 },
    /// A message from a chat that may not talk to the agent.
    NotAllowed { chat_id: i64 },
    /// A message to answer.
    Say { chat_id: i64, text: String },
}

/// What is answered to a message that is no text.
pub const NOT_TEXT: &'static str = "I can only read text messages.";

/// The chat that an update came from.
pub open spec fn chat_of(update: JsonModel) -> Option<i64> {
    match update.get("message"@) {
        Some(msg) => match msg.get("chat"@) {
            Some(chat) => match chat.get("id"@) {
                Some(id) => id.as_i64(),
                None => None,
            },
            None => None,
        },
        None => None,
    }
}

/// The text of an update's message.
pub open spec fn text_of(update: JsonModel) -> Option<Seq<char>> {
    match update.get("message"@) {
        Some(msg) => msg.str_at("text"@),
        None => None,
    }
}

/// An empty list allows everyone.
pub open spec fn allowed(ids: Seq<i64>, chat_id: i64) -> bool {
    ids.len() == 0 || ids.contains(chat_id)
}

fn is_allowed(ids: &Vec<i64>, chat_id: i64) -> (r: bool)
    ensures
        r == allowed(ids@, chat_id),
{
    if ids.len() == 0 {
        return true;
    }
    let mut i: usize = 0;
    while i < ids.len()
        invariant
            i <= ids@.len(),
            forall|j: int| 0 <= j < i ==> #[trigger] ids@[j] != chat_id,
        decreases ids@.len() - i,
    {
        if ids[i] == chat_id {
            assert(ids@[i as int] == chat_id);
            return true;
        }
        i += 1;
    }
    false
}

/// What an update asks for, where `ids` lists the chats that may talk to the agent.
pub fn incoming(update: &Json, ids: &Vec<i64>) -> (r: Incoming)
    ensures
        match r {
            Incoming::Nothing => chat_of(update@) is None,
            Incoming::NotText { chat_id } => chat_of(update@) == Some(chat_id) && text_of(
                update@,
            ) is None,
            Incoming::NotAllowed { chat_id } => chat_of(update@) == Some(chat_id) && text_of(
                update@,
            ) is Some && !allowed(ids@, chat_id),
            Incoming::Say { chat_id, text } => chat_of(update@) == Some(chat_id) && text_of(
                update@,
            ) == Some(text@) && allowed(ids@, chat_id),
        },
{
    let msg = match update.get("message") {
        Some(m) => m,
        None => {
            return Incoming::Nothing;
        },
    };
    let chat_id: i64 = match msg.get("chat") {
        Some(chat) => match chat.get("id") {
            Some(id) => match id.as_i64() {
                Some(n) => n,
                None => {
                    return Incoming::Nothing;
                },
            },
            None => {
                return Incoming::Nothing;
            },
        },
        None => {
            return Incoming::Nothing;
        },
    };
    match msg.str_at("text") {
        None => Incoming::NotText { chat_id },
        Some(t) => if is_allowed(ids, chat_id) {
            Incoming::Say { chat_id, text: t.to_owned() }
        } else {
            Incoming::NotAllowed { chat_id }
        },
    }
}

/// The number of an update.
pub open spec fn update_id(update: JsonModel) -> Option<i64> {
    match update.get("update_id"@) {
        Some(v) => v.as_i64(),
        None => None,
    }
}

/// Which update to ask for next, once this one was seen: never an earlier one than
/// before, and one behind it.
pub fn next_offset(offset: i64, update: &Json) -> (r: i64)
    ensures
        r >= offset,
        match update_id(update@) {
            Some(id) => if id < i64::MAX && id + 1 > offset {
                r == id + 1
            } else {
                r == offset
            },
            None => r == offset,
        },
{
    match update.get("update_id") {
        Some(v) => match v.as_i64() {
            Some(id) => if id < i64::MAX && id + 1 > offset {
                id + 1
            } else {
                offset
            },
            None => offset,
        },
        None => offset,
    }
}

/// A response of the service says that it went well.
pub open spec fn is_ok(v: JsonModel) -> bool {
    match v.get("ok"@) {
        Some(b) => b.as_bool() == Some(true),
        None => false,
    }
}

fn went_well(v: &Json) -> (r: bool)
    ensures
        r == is_ok(v@),
{
    match v.get("ok") {
        Some(b) => match b.as_bool() {
            Some(x) => x,
            None => false,
        },
        None => false,
    }
}

fn rejected(what: &str, v: &Json) -> (r: String)
    ensures
        r@ == what@ + json::json_text(v@),
{
    let mut out = what.to_owned();
    let t = v.to_text();
    out.push_str(t.as_str());
    out
}

/// The name under which the bot is known.
pub open spec fn username_of(v: JsonModel) -> Seq<char> {
    match v.get("result"@) {
        Some(r) => match r.str_at("username"@) {
            Some(n) => n,
            None => "unknown"@,
        },
        None => "unknown"@,
    }
}

/// The name under which the bot is known, from the service's answer to `getMe`.
pub fn get_me(v: &Json) -> (r: Result<String, String>)
    ensures
        match r {
            Ok(name) => is_ok(v@) && name@ == username_of(v@),
            Err(e) => !is_ok(v@) && e@ == "getMe rejected the token: "@ + json::json_text(v@),
        },
{
    if !went_well(v) {
        return Err(rejected("getMe rejected the token: ", v));
    }
    let name = match v.get("result") {
        Some(r) => match r.str_at("username") {
            Some(n) => n.to_owned(),
            None => "unknown".to_owned(),
        },
        None => "unknown".to_owned(),
    };
    Ok(name)
}

/// The updates in the service's answer.
pub open spec fn updates_of(v: JsonModel) -> Seq<JsonModel> {
    match v.get("result"@) {
        Some(r) => match r.as_array() {
            Some(items) => items,
            None => Seq::empty(),
        },
        None => Seq::empty(),
    }
}

/// The updates in the service's answer to `getUpdates`.
pub fn get_updates(v: &Json) -> (r: Result<Vec<Json>, String>)
    ensures
        match r {
            Ok(us) => is_ok(v@) && json::models(us@) == updates_of(v@),
            Err(e) => !is_ok(v@) && e@ == "getUpdates returned "@ + json::json_text(v@),
        },
{
    if !went_well(v) {
        return Err(rejected("getUpdates returned ", v));
    }
    let mut out: Vec<Json> = Vec::new();
    assert(json::models(out@) =~= Seq::empty());
    if let Some(result) = v.get("result") {
        if let Some(items) = result.as_array() {
            let mut i: usize = 0;
            while i < items.len()
                invariant
                    i <= items@.len(),
                    out@.len() == i,
                    forall|j: int| 0 <= j < i ==> (#[trigger] out@[j])@ == items@[j]@,
                decreases items@.len() - i,
            {
                out.push(items[i].clone());
                i += 1;
            }
            assert(json::models(out@) =~= json::models(items@));
        }
    }
    Ok(out)
}

/// Whether a message was sent, from the service's answer to `sendMessage`.
pub fn sent(v: &Json) -> (r: Result<(), String>)
    ensures
        match r {
            Ok(()) => is_ok(v@),
            Err(e) => !is_ok(v@) && e@ == "sendMessage returned "@ + json::json_text(v@),
        },
{
    if went_well(v) {
        Ok(())
    } else {
        Err(rejected("sendMessage returned ", v))
    }
}

/// The request for updates: messages only, the rest would be passed over anyway.
pub fn updates_request(offset: i64, timeout: u32) -> (r: Json)
    ensures
        r@ == JsonModel::object().with("offset"@, JsonModel::integer(offset as int)).with(
            "timeout"@,
            JsonModel::integer(timeout as int),
        ).with("allowed_updates"@, JsonModel::Array(seq![JsonModel::Str("message"@)])),
{
    let kinds: Vec<Json> = vec![Json::string("message")];
    assert(json::models(kinds@) =~= seq![JsonModel::Str("message"@)]);
    Json::Object(
        JsonObject::new().with("offset", Json::from_i64(offset)).with(
            "timeout",
            Json::from_u64(timeout as u64),
        ).with("allowed_updates", Json::array(kinds)),
    )
}

/// The request that sends a message.
pub fn send_request(chat_id: i64, text: &str) -> (r: Json)
    ensures
        r@ == JsonModel::object().with("chat_id"@, JsonModel::integer(chat_id as int)).with(
            "text"@,
            JsonModel::Str(text@),
        ),
{
    Json::Object(
        JsonObject::new().with("chat_id", Json::from_i64(chat_id)).with(
            "text",
            Json::string(text),
        ),
    )
}

/// The request that shows the bot as typing.
pub fn typing_request(chat_id: i64) -> (r: Json)
    ensures
        r@ == JsonModel::object().with("chat_id"@, JsonModel::integer(chat_id as int)).with(
            "action"@,
            JsonModel::Str("typing"@),
        ),
{
    Json::Object(
        JsonObject::new().with("chat_id", Json::from_i64(chat_id)).with(
            "action",
            Json::string("typing"),
        ),
    )
}

/// What is sent of a turn: its reply, a placeholder where that is blank, or why it
/// failed.
pub fn reply_body(result: Result<String, String>) -> (r: String)
    ensures
        r@ == (match result {
            Ok(reply) => if text::trim(reply@).len() == 0 {
                "(no reply)"@
            } else {
                reply@
            },
            Err(e) => "error: "@ + e@,
        }),
{
    match result {
        Ok(reply) => {
            let t = text::trimmed(reply.as_str());
            if t.as_str().is_empty() {
                "(no reply)".to_owned()
            } else {
                reply
            }
        },
        Err(e) => {
            let mut out = "error: ".to_owned();
            out.push_str(e.as_str());
            out
        },
    }
}

/// The full chunks that a long line starts with.
pub open spec fn full_chunks(s: Seq<char>) -> Seq<Seq<char>>
    decreases s.len(),
{
    if s.len() >= MAX_MESSAGE_CHARS {
        seq![s.take(MAX_MESSAGE_CHARS as int)] + full_chunks(s.skip(MAX_MESSAGE_CHARS as int))
    } else {
        Seq::empty()
    }
}

/// What is left of a long line behind its full chunks.
pub open spec fn chunk_rest(s: Seq<char>) -> Seq<char>
    decreases s.len(),
{
    if s.len() >= MAX_MESSAGE_CHARS {
        chunk_rest(s.skip(MAX_MESSAGE_CHARS as int))
    } else {
        s
    }
}

/// The chunks that are complete, and the one that is being filled.
pub struct Chunking {
    pub chunks: Seq<Seq<char>>,
    pub current: Seq<char>,
}

impl Chunking {
    /// One line more. A chunk that the line would overfill is complete; a line that
    /// is too long for any is broken up.
    pub open spec fn with_line(self, line: Seq<char>) -> Chunking {
        let flushed = if self.current.len() + line.len() > MAX_MESSAGE_CHARS && self.current.len()
            > 0 {
            Chunking { chunks: self.chunks.push(self.current), current: Seq::empty() }
        } else {
            self
        };
        if line.len() > MAX_MESSAGE_CHARS {
            Chunking {
                chunks: flushed.chunks + full_chunks(line),
                current: flushed.current + chunk_rest(line),
            }
        } else {
            Chunking { chunks: flushed.chunks, current: flushed.current + line }
        }
    }

    /// All lines.
    pub open spec fn of(lines: Seq<Seq<char>>) -> Chunking
        decreases lines.len(),
    {
        if lines.len() == 0 {
            Chunking { chunks: Seq::empty(), current: Seq::empty() }
        } else {
            Chunking::of(lines.drop_last()).with_line(lines.last())
        }
    }

    /// All chunks, the last one too.
    pub open spec fn finished(self) -> Seq<Seq<char>> {
        if self.current.len() > 0 {
            self.chunks.push(self.current)
        } else {
            self.chunks
        }
    }
}

/// The chunks that a reply is sent in.
pub open spec fn chunks_of(text: Seq<char>) -> Seq<Seq<char>> {
    if text.len() <= MAX_MESSAGE_CHARS {
        seq![text]
    } else {
        Chunking::of(text::pieces(text)).finished()
    }
}

proof fn lemma_full_chunks(s: Seq<char>)
    ensures
        text::concat(full_chunks(s)) + chunk_rest(s) == s,
        chunk_rest(s).len() < MAX_MESSAGE_CHARS,
        forall|i: int|
            0 <= i < full_chunks(s).len() ==> (#[trigger] full_chunks(s)[i]).len()
                == MAX_MESSAGE_CHARS,
    decreases s.len(),
{
    let n = MAX_MESSAGE_CHARS as int;
    if s.len() >= n {
        let rest = s.skip(n);
        lemma_full_chunks(rest);
        text::lemma_concat_append(seq![s.take(n)], full_chunks(rest));
        text::lemma_concat_one(s.take(n));
        assert(s.take(n) + text::concat(full_chunks(rest)) + chunk_rest(rest) =~= s.take(n) + (
        text::concat(full_chunks(rest)) + chunk_rest(rest)));
        assert(s.take(n) + rest =~= s);
        assert forall|i: int| 0 <= i < full_chunks(s).len() implies (#[trigger] full_chunks(
            s,
        )[i]).len() == n by {
            if i > 0 {
                assert(full_chunks(s)[i] == full_chunks(rest)[i - 1]);
            }
        }
    } else {
        assert(Seq::<char>::empty() + s =~= s);
    }
}

proof fn lemma_chunking(lines: Seq<Seq<char>>)
    ensures
        ({
            let c = Chunking::of(lines);
            &&& text::concat(c.chunks) + c.current == text::concat(lines)
            &&& c.current.len() <= MAX_MESSAGE_CHARS
            &&& forall|i: int|
                0 <= i < c.chunks.len() ==> 0 < (#[trigger] c.chunks[i]).len()
                    <= MAX_MESSAGE_CHARS
        }),
    decreases lines.len(),
{
    if lines.len() == 0 {
        assert(text::concat(Seq::empty()) + Seq::<char>::empty() =~= Seq::<char>::empty());
    } else {
        lemma_chunking(lines.drop_last());
        let before = Chunking::of(lines.drop_last());
        let line = lines.last();
        let all = text::concat(lines.drop_last());
        let flushes = before.current.len() + line.len() > MAX_MESSAGE_CHARS
            && before.current.len() > 0;
        let flushed = if flushes {
            Chunking { chunks: before.chunks.push(before.current), current: Seq::empty() }
        } else {
            before
        };
        assert(text::concat(flushed.chunks) + flushed.current == all) by {
            if flushes {
                assert(flushed.chunks.drop_last() =~= before.chunks);
                assert(text::concat(flushed.chunks) + Seq::<char>::empty() =~= text::concat(
                    flushed.chunks,
                ));
            }
        }
        let after = before.with_line(line);
        if line.len() > MAX_MESSAGE_CHARS {
            lemma_full_chunks(line);
            text::lemma_concat_append(flushed.chunks, full_chunks(line));
            assert(flushed.current.len() == 0);
            assert(flushed.current + chunk_rest(line) =~= chunk_rest(line));
            assert(all =~= text::concat(flushed.chunks));
            assert(text::concat(flushed.chunks) + text::concat(full_chunks(line)) + chunk_rest(
                line,
            ) =~= all + line);
            assert forall|i: int| 0 <= i < after.chunks.len() implies 0 < (
            #[trigger] after.chunks[i]).len() <= MAX_MESSAGE_CHARS by {
                if i < flushed.chunks.len() {
                    assert(after.chunks[i] == flushed.chunks[i]);
                } else {
                    assert(after.chunks[i] == full_chunks(line)[i - flushed.chunks.len()]);
                }
            }
        } else {
            assert(text::concat(flushed.chunks) + (flushed.current + line) =~= all + line);
        }
    }
}

/// Splitting a reply neither loses nor reorders anything, and no chunk is over the
/// limit.
pub proof fn law_chunks_are_the_reply(text: Seq<char>)
    ensures
        text::concat(chunks_of(text)) == text,
        forall|i: int|
            0 <= i < chunks_of(text).len() ==> (#[trigger] chunks_of(text)[i]).len()
                <= MAX_MESSAGE_CHARS,
{
    if text.len() <= MAX_MESSAGE_CHARS {
        text::lemma_concat_one(text);
    } else {
        let c = Chunking::of(text::pieces(text));
        lemma_chunking(text::pieces(text));
        text::lemma_pieces_concat(text);
        if c.current.len() > 0 {
            assert(c.chunks.push(c.current).drop_last() =~= c.chunks);
        } else {
            assert(text::concat(c.chunks) + c.current =~= text::concat(c.chunks));
        }
    }
}

/// The first line of `s`, with its line feed where it has one.
pub open spec fn first_line(s: Seq<char>) -> Seq<char> {
    match text::find_from(s, seq!['\n'], 0) {
        Some(i) => s.take(i + 1),
        None => s,
    }
}

proof fn lemma_first_line(a: Seq<char>, b: Seq<char>)
    requires
        a.len() > 0,
        a.last() == '\n',
    ensures
        first_line(a + b) == first_line(a),
{
    let nl = seq!['\n'];
    let n = a.len() - 1;
    text::lemma_find_from(a, nl, 0);
    assert(a.subrange(n, n + 1) =~= nl);
    assert(text::occurs_at(a, nl, n));
    let i = text::find_from(a, nl, 0)->0;
    assert(a[i] == a.subrange(i, i + 1)[0]);
    let whole = a + b;
    assert forall|j: int| 0 <= j < i implies #[trigger] whole[j] != '\n' by {
        if a[j] == '\n' {
            assert(a.subrange(j, j + 1) =~= nl);
            assert(text::occurs_at(a, nl, j));
        }
    }
    text::lemma_find_char(whole, '\n', i);
    assert(whole.take(i + 1) =~= a.take(i + 1));
}

proof fn lemma_one_line(line: Seq<char>)
    requires
        line.len() > 0,
        forall|k: int| 0 <= k < line.len() - 1 ==> line[k] != '\n',
    ensures
        first_line(line) == line,
{
    if line.last() == '\n' {
        text::lemma_find_char(line, '\n', line.len() - 1);
        assert(line.take(line.len() as int) =~= line);
    } else {
        assert(!line.contains('\n'));
        text::lemma_find_no_char(line, '\n');
    }
}

/// Lines with their ends: no line feed stands inside one, and only the last may
/// lack it.
spec fn are_lines(ls: Seq<Seq<char>>) -> bool {
    &&& forall|i: int| 0 <= i < ls.len() ==> (#[trigger] ls[i]).len() > 0
    &&& forall|i: int, k: int| 0 <= i < ls.len() && 0 <= k < ls[i].len() - 1 ==> ls[i][k] != '\n'
    &&& forall|i: int| 0 <= i < ls.len() - 1 ==> (#[trigger] ls[i]).last() == '\n'
}

proof fn lemma_pieces_are_lines(s: Seq<char>)
    ensures
        are_lines(text::pieces(s)),
    decreases s.len(),
{
    let nl = seq!['\n'];
    text::lemma_find_from(s, nl, 0);
    if let Some(i) = text::find_from(s, nl, 0) {
        lemma_pieces_are_lines(s.skip(i + 1));
        let first = s.take(i + 1);
        let rest = text::pieces(s.skip(i + 1));
        let all = text::pieces(s);
        assert(all =~= seq![first] + rest);
        assert(s.subrange(i, i + 1)[0] == s[i]);
        assert(first.last() == '\n');
        assert forall|k: int| 0 <= k < first.len() - 1 implies first[k] != '\n' by {
            if s[k] == '\n' {
                assert(s.subrange(k, k + 1) =~= nl);
                assert(text::occurs_at(s, nl, k));
            }
        }
        assert forall|j: int| 0 <= j < all.len() implies (#[trigger] all[j]).len() > 0 by {
            if j > 0 {
                assert(all[j] == rest[j - 1]);
            }
        }
        assert forall|j: int, k: int|
            0 <= j < all.len() && 0 <= k < all[j].len() - 1 implies all[j][k] != '\n' by {
            if j > 0 {
                assert(all[j] == rest[j - 1]);
            }
        }
        assert forall|j: int| 0 <= j < all.len() - 1 implies (#[trigger] all[j]).last() == '\n' by {
            if j > 0 {
                assert(all[j] == rest[j - 1]);
            }
        }
    } else {
        assert forall|k: int| 0 <= k < s.len() implies s[k] != '\n' by {
            if s[k] == '\n' {
                assert(s.subrange(k, k + 1) =~= nl);
                assert(text::occurs_at(s, nl, k));
            }
        }
    }
}

/// `a` ends with a line, and has no room for the line that `b` starts with.
pub open spec fn is_full_before(a: Seq<char>, b: Seq<char>) -> bool {
    &&& a.len() > 0
    &&& a.last() == '\n'
    &&& a.len() + first_line(b).len() > MAX_MESSAGE_CHARS
}

proof fn lemma_chunks_end_with_lines(ls: Seq<Seq<char>>)
    requires
        are_lines(ls),
        forall|i: int| 0 <= i < ls.len() ==> (#[trigger] ls[i]).len() <= MAX_MESSAGE_CHARS,
    ensures
        ({
            let c = Chunking::of(ls);
            &&& forall|i: int, j: int|
                0 <= i && j == i + 1 && j < c.chunks.len() ==> #[trigger] is_full_before(
                    c.chunks[i],
                    c.chunks[j],
                )
            &&& c.chunks.len() > 0 ==> is_full_before(c.chunks.last(), c.current)
            &&& ls.len() > 0 ==> c.current.len() > 0 && c.current.last() == ls.last().last()
            &&& ls.len() == 0 ==> c.chunks.len() == 0 && c.current.len() == 0
        }),
    decreases ls.len(),
{
    if ls.len() > 0 {
        let front = ls.drop_last();
        assert forall|i: int, k: int|
            0 <= i < front.len() && 0 <= k < front[i].len() - 1 implies front[i][k] != '\n' by {
            assert(front[i] == ls[i]);
        }
        lemma_chunks_end_with_lines(front);
        let before = Chunking::of(front);
        let line = ls.last();
        assert(line == ls[ls.len() - 1]);
        lemma_one_line(line);
        let c = Chunking::of(ls);
        if front.len() > 0 {
            assert(front.last() == ls[ls.len() - 2]);
            assert(before.current.last() == '\n');
            if before.current.len() + line.len() > MAX_MESSAGE_CHARS {
                assert(Seq::<char>::empty() + line =~= line);
                assert(c.chunks == before.chunks.push(before.current));
                assert(c.current == line);
                assert forall|i: int, j: int|
                    0 <= i && j == i + 1 && j < c.chunks.len() implies #[trigger] is_full_before(
                    c.chunks[i],
                    c.chunks[j],
                ) by {
                    if j < before.chunks.len() {
                        assert(is_full_before(before.chunks[i], before.chunks[j]));
                    } else {
                        assert(c.chunks[i] == before.chunks.last());
                    }
                }
            } else {
                lemma_first_line(before.current, line);
                assert(c.chunks == before.chunks);
                assert((before.current + line).last() == line.last());
            }
        } else {
            assert(Seq::<char>::empty() + line =~= line);
            assert(before.current + line =~= line);
        }
    }
}

/// A reply is broken between lines, and only where it has to be. Where every line
/// fits into a chunk, each chunk but the last ends with a line, and the first line
/// of the chunk behind it would not have fitted.
pub proof fn law_chunks_break_between_lines(text: Seq<char>)
    requires
        forall|i: int|
            0 <= i < text::pieces(text).len() ==> (#[trigger] text::pieces(text)[i]).len()
                <= MAX_MESSAGE_CHARS,
    ensures
        forall|i: int, j: int|
            0 <= i && j == i + 1 && j < chunks_of(text).len() ==> #[trigger] is_full_before(
                chunks_of(text)[i],
                chunks_of(text)[j],
            ),
{
    if text.len() > MAX_MESSAGE_CHARS {
        let ls = text::pieces(text);
        let c = Chunking::of(ls);
        let all = chunks_of(text);
        lemma_pieces_are_lines(text);
        lemma_chunks_end_with_lines(ls);
        assert forall|i: int, j: int|
            0 <= i && j == i + 1 && j < all.len() implies #[trigger] is_full_before(
            all[i],
            all[j],
        ) by {
            if j < c.chunks.len() {
                assert(is_full_before(c.chunks[i], c.chunks[j]));
            }
        }
    }
}

/// The chunks that a reply is sent in, broken between lines where that is possible,
/// so that code and lists do not break in the middle of one.
pub fn split_message(text: &str) -> (r: Vec<String>)
    ensures
        text::views(r@) == chunks_of(text@),
        text::concat(text::views(r@)) == text@,
        forall|i: int| 0 <= i < r@.len() ==> (#[trigger] r@[i])@.len() <= MAX_MESSAGE_CHARS,
{
    proof {
        law_chunks_are_the_reply(text@);
    }
    if text.unicode_len() <= MAX_MESSAGE_CHARS {
        let one: Vec<String> = vec![text.to_owned()];
        assert(text::views(one@) =~= seq![text@]);
        assert forall|i: int| 0 <= i < one@.len() implies (#[trigger] one@[i])@.len()
            <= MAX_MESSAGE_CHARS by {
            assert(chunks_of(text@)[i] == one@[i]@);
        }
        return one;
    }
    let lines = text::pieces_of(text);
    let ghost all = text::pieces(text@);
    let mut chunks: Vec<String> = Vec::new();
    let mut current: Vec<char> = Vec::new();
    let mut i: usize = 0;
    assert(all.take(0) =~= Seq::empty());
    assert(text::views(chunks@) =~= Seq::empty());
    while i < lines.len()
        invariant
            i <= lines@.len(),
            text::views(lines@) == all,
            Chunking::of(all.take(i as int)) == (Chunking {
                chunks: text::views(chunks@),
                current: current@,
            }),
            current@.len() <= MAX_MESSAGE_CHARS,
        decreases lines@.len() - i,
    {
        assert(all.take(i + 1).drop_last() =~= all.take(i as int));
        assert(all.take(i + 1).last() == lines@[i as int]@);
        let ghost before = Chunking::of(all.take(i as int));
        let ghost had = chunks@;
        let line = text::chars_of(lines[i].as_str());
        proof {
            lemma_chunking(all.take(i + 1));
        }
        if line.len() > MAX_MESSAGE_CHARS - current.len() && current.len() > 0 {
            chunks.push(text::string_of(current.as_slice()));
            assert(text::views(chunks@) =~= text::views(had).push(before.current));
            current = Vec::new();
            assert(current@ =~= Seq::empty());
        }
        let ghost flushed = Chunking { chunks: text::views(chunks@), current: current@ };
        if line.len() > MAX_MESSAGE_CHARS {
            let ghost whole = line@;
            let room: usize = line.len();
            let mut from: usize = 0;
            assert(whole.skip(0) =~= whole);
            assert(flushed.chunks + full_chunks(whole) =~= text::views(chunks@) + full_chunks(
                whole,
            ));
            while room - from >= MAX_MESSAGE_CHARS
                invariant
                    from <= room,
                    room == line@.len(),
                    line@ == whole,
                    flushed.chunks + full_chunks(whole) == text::views(chunks@) + full_chunks(
                        whole.skip(from as int),
                    ),
                    chunk_rest(whole) == chunk_rest(whole.skip(from as int)),
                decreases room - from,
            {
                let ghost rest = whole.skip(from as int);
                let ghost so_far = chunks@;
                let part = text::slice_of(line.as_slice(), from, from + MAX_MESSAGE_CHARS);
                assert(part@ =~= rest.take(MAX_MESSAGE_CHARS as int));
                assert(rest.skip(MAX_MESSAGE_CHARS as int) =~= whole.skip(
                    from + MAX_MESSAGE_CHARS,
                ));
                let ghost p = part@;
                chunks.push(part);
                assert(text::views(chunks@) =~= text::views(so_far).push(p));
                assert(text::views(so_far) + (seq![p] + full_chunks(
                    whole.skip(from + MAX_MESSAGE_CHARS),
                )) =~= text::views(chunks@) + full_chunks(whole.skip(from + MAX_MESSAGE_CHARS)));
                from = from + MAX_MESSAGE_CHARS;
            }
            assert(text::views(chunks@) + Seq::<Seq<char>>::empty() =~= text::views(chunks@));
            let mut k: usize = from;
            let ghost start = current@;
            assert(whole.subrange(from as int, from as int) =~= Seq::empty());
            assert(start + Seq::<char>::empty() =~= start);
            while k < room
                invariant
                    from <= k <= room,
                    room == line@.len(),
                    line@ == whole,
                    current@ == start + whole.subrange(from as int, k as int),
                decreases room - k,
            {
                current.push(line[k]);
                assert(whole.subrange(from as int, k + 1) =~= whole.subrange(
                    from as int,
                    k as int,
                ).push(whole[k as int]));
                assert(start + whole.subrange(from as int, k as int).push(whole[k as int]) =~= (
                start + whole.subrange(from as int, k as int)).push(whole[k as int]));
                k += 1;
            }
            assert(whole.subrange(from as int, room as int) =~= whole.skip(from as int));
        } else {
            let ghost start = current@;
            let mut k: usize = 0;
            assert(start + line@.take(0) =~= start);
            while k < line.len()
                invariant
                    k <= line@.len(),
                    current@ == start + line@.take(k as int),
                decreases line@.len() - k,
            {
                current.push(line[k]);
                assert(start + line@.take(k + 1) =~= (start + line@.take(k as int)).push(
                    line@[k as int],
                ));
                k += 1;
            }
            assert(line@.take(k as int) =~= line@);
        }
        i += 1;
    }
    assert(all.take(i as int) =~= all);
    let ghost done = text::views(chunks@);
    if current.len() > 0 {
        let ghost had = chunks@;
        chunks.push(text::string_of(current.as_slice()));
        assert(text::views(chunks@) =~= text::views(had).push(current@));
    }
    assert forall|i: int| 0 <= i < chunks@.len() implies (#[trigger] chunks@[i])@.len()
        <= MAX_MESSAGE_CHARS by {
        assert(chunks_of(text@)[i] == chunks@[i]@);
    }
    chunks
}

/// The keys differ from each other.
proof fn lemma_update_keys()
    ensures
        "update_id"@ != "message"@,
        "update_id"@ != "chat"@,
        "update_id"@ != "id"@,
        "update_id"@ != "text"@,
        "update_id"@ != "ok"@,
        "update_id"@ != "result"@,
        "update_id"@ != "username"@,
        "message"@ != "chat"@,
        "message"@ != "id"@,
        "message"@ != "text"@,
        "message"@ != "ok"@,
        "message"@ != "result"@,
        "message"@ != "username"@,
        "chat"@ != "id"@,
        "chat"@ != "text"@,
        "chat"@ != "ok"@,
        "chat"@ != "result"@,
        "chat"@ != "username"@,
        "id"@ != "text"@,
        "id"@ != "ok"@,
        "id"@ != "result"@,
        "id"@ != "username"@,
        "text"@ != "ok"@,
        "text"@ != "result"@,
        "text"@ != "username"@,
        "ok"@ != "result"@,
        "ok"@ != "username"@,
        "result"@ != "username"@,
{
    reveal_strlit("update_id");
    reveal_strlit("message");
    reveal_strlit("chat");
    reveal_strlit("id");
    reveal_strlit("text");
    reveal_strlit("ok");
    reveal_strlit("result");
    reveal_strlit("username");
    assert("update_id"@.len() == 9);
    assert("message"@.len() == 7);
    assert("chat"@.len() == 4);
    assert("id"@.len() == 2);
    assert("text"@.len() == 4);
    assert("ok"@.len() == 2);
    assert("result"@.len() == 6);
    assert("username"@.len() == 8);
    assert("chat"@[0] == 'c' && "text"@[0] == 't');
    assert("id"@[0] == 'i' && "ok"@[0] == 'o');
}

/// A message that comes in is read as it was sent: who sent it, what it says and its
/// number.
pub proof fn law_message_is_read(number: i64, chat_id: i64, said: Seq<char>)
    ensures
        ({
            let update = JsonModel::object().with(
                "update_id"@,
                JsonModel::integer(number as int),
            ).with(
                "message"@,
                JsonModel::object().with(
                    "chat"@,
                    JsonModel::object().with("id"@, JsonModel::integer(chat_id as int)),
                ).with("text"@, JsonModel::Str(said)),
            );
            &&& chat_of(update) == Some(chat_id)
            &&& text_of(update) == Some(said)
            &&& update_id(update) == Some(number)
        }),
{
    broadcast use json::lemma_get_with;

    lemma_update_keys();
}

/// Who may talk to the agent: everyone where no chat is listed, else only those that are.
pub proof fn law_only_listed_chats_may_talk(ids: Seq<i64>, chat_id: i64)
    ensures
        ids.len() == 0 ==> allowed(ids, chat_id),
        ids.len() > 0 ==> (allowed(ids, chat_id) <==> exists|i: int|
            0 <= i < ids.len() && ids[i] == chat_id),
{
}

/// Of an answer that went well all updates are taken, in order.
pub proof fn law_every_update_is_taken(items: Seq<JsonModel>, name: Seq<char>)
    ensures
        ({
            let v = JsonModel::object().with("ok"@, JsonModel::Bool(true)).with(
                "result"@,
                JsonModel::Array(items),
            );
            is_ok(v) && updates_of(v) == items
        }),
        ({
            let v = JsonModel::object().with("ok"@, JsonModel::Bool(true)).with(
                "result"@,
                JsonModel::object().with("username"@, JsonModel::Str(name)),
            );
            is_ok(v) && username_of(v) == name
        }),
        !is_ok(JsonModel::object().with("ok"@, JsonModel::Bool(false))),
        !is_ok(JsonModel::object()),
{
    broadcast use json::lemma_get_with;

    lemma_update_keys();
}

} // verus!
