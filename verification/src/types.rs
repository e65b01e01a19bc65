//! The message model: what a conversation is made of.
//!
//! A tool result carries a bounded preview; the full output, when it was too
//! long, lies in a file that `blob` names.
use crate::json;
use crate::json::{Json, JsonModel};
use crate::text;
use vstd::prelude::*;

verus! {

broadcast use vstd::std_specs::vec::axiom_spec_len;

/// Why a response ended.
#[derive(Debug, Clone, Copy, PartialEq, Eq, Structural)]
pub enum StopReason {
    Stop,
    Length,
    ToolUse,
    Error,
    Aborted,
}

/// A part of what the assistant said.
#[derive(Debug, PartialEq)]
pub enum ContentBlock {
    Text { text: String },
    /// `signature` is the provider's own mark on the reasoning.
    Thinking { text: String, signature: Option<String> },
    ToolCall { id: String, name: String, input: Json },
}

/// What a [`ContentBlock`] holds.
pub enum ContentModel {
    Text { text: Seq<char> },
    Thinking { text: Seq<char>, signature: Option<Seq<char>> },
    ToolCall { id: Seq<char>, name: Seq<char>, input: JsonModel },
}

impl ContentBlock {
    pub open spec fn view(&self) -> ContentModel {
        match self {
            ContentBlock::Text { text } => ContentModel::Text { text: text@ },
            ContentBlock::Thinking { text, signature } => ContentModel::Thinking {
                text: text@,
                signature: text::opt(*signature),
            },
            ContentBlock::ToolCall { id, name, input } => ContentModel::ToolCall {
                id: id@,
                name: name@,
                input: input@,
            },
        }
    }

    pub fn text(s: String) -> (r: ContentBlock)
        ensures
            r@ == (ContentModel::Text { text: s@ }),
    {
        ContentBlock::Text { text: s }
    }
}

impl Clone for ContentBlock {
    fn clone(&self) -> (r: ContentBlock)
        ensures
            r@ == self@,
    {
        match self {
            ContentBlock::Text { text } => ContentBlock::Text { text: text.clone() },
            ContentBlock::Thinking { text, signature } => ContentBlock::Thinking {
                text: text.clone(),
                signature: text::clone_opt(signature),
            },
            ContentBlock::ToolCall { id, name, input } => ContentBlock::ToolCall {
                id: id.clone(),
                name: name.clone(),
                input: input.clone(),
            },
        }
    }
}

/// What the blocks `bs` hold.
pub open spec fn contents(bs: Seq<ContentBlock>) -> Seq<ContentModel> {
    Seq::new(bs.len(), |i: int| bs[i]@)
}

/// A copy of the blocks.
pub fn clone_contents(bs: &Vec<ContentBlock>) -> (r: Vec<ContentBlock>)
    ensures
        contents(r@) == contents(bs@),
{
    let mut out: Vec<ContentBlock> = Vec::new();
    let mut i: usize = 0;
    while i < bs.len()
        invariant
            i <= bs@.len(),
            out@.len() == i,
            forall|j: int| 0 <= j < i ==> (#[trigger] out@[j])@ == bs@[j]@,
        decreases bs@.len() - i,
    {
        out.push(bs[i].clone());
        i += 1;
    }
    assert(contents(out@) =~= contents(bs@));
    out
}

/// Token counts as a provider reports them.
#[derive(Debug, Clone, Copy, PartialEq, Eq, Structural)]
pub struct Usage {
    pub input: u32,
    pub output: u32,
    pub cache_read: u32,
    pub cache_write: u32,
}

/// `n`, or the greatest value that fits where `n` is above it.
pub open spec fn capped(n: int, max: int) -> int {
    if n <= max {
        n
    } else {
        max
    }
}

impl Usage {
    /// No tokens at all.
    pub open spec fn zero() -> Usage {
        Usage { input: 0, output: 0, cache_read: 0, cache_write: 0 }
    }

    /// Tokens occupying the context window on the next call.
    pub fn context_tokens(&self) -> (r: u32)
        ensures
            r == capped(
                self.input + self.cache_read + self.cache_write + self.output,
                u32::MAX as int,
            ),
    {
        self.input.saturating_add(self.cache_read).saturating_add(
            self.cache_write,
        ).saturating_add(self.output)
    }
}

impl Default for Usage {
    fn default() -> (r: Usage)
        ensures
            r == Usage::zero(),
    {
        Usage { input: 0, output: 0, cache_read: 0, cache_write: 0 }
    }
}

/// One entry of a conversation.
#[allow(inconsistent_fields)]
#[derive(Debug, PartialEq)]
pub enum Message {
    User { content: String },
    Assistant {
        content: Vec<ContentBlock>,
        usage: Usage,
        stop_reason: StopReason,
        error: Option<String>,
    },
    /// `content` is the bounded preview sent to the model, `blob` where the full
    /// output was put.
    ToolResult {
        tool_call_id: String,
        tool_name: String,
        content: String,
        is_error: bool,
        blob: Option<String>,
    },
}

/// What a [`Message`] holds.
#[allow(inconsistent_fields)]
pub enum MessageModel {
    User { content: Seq<char> },
    Assistant {
        content: Seq<ContentModel>,
        usage: Usage,
        stop_reason: StopReason,
        error: Option<Seq<char>>,
    },
    ToolResult {
        tool_call_id: Seq<char>,
        tool_name: Seq<char>,
        content: Seq<char>,
        is_error: bool,
        blob: Option<Seq<char>>,
    },
}

/// Characters of one block that count towards the token estimate.
pub open spec fn block_len(b: ContentModel) -> nat {
    match b {
        ContentModel::Text { text } => text.len(),
        ContentModel::Thinking { text, .. } => text.len(),
        ContentModel::ToolCall { name, input, .. } => name.len() + json::json_text(input).len(),
    }
}

/// Characters of all blocks together.
pub open spec fn blocks_len(bs: Seq<ContentModel>) -> nat
    decreases bs.len(),
{
    if bs.len() == 0 {
        0
    } else {
        blocks_len(bs.drop_last()) + block_len(bs.last())
    }
}

impl MessageModel {
    /// Characters of the message that count towards the token estimate.
    pub open spec fn char_len(self) -> nat {
        match self {
            MessageModel::User { content } => content.len(),
            MessageModel::Assistant { content, .. } => blocks_len(content),
            MessageModel::ToolResult { content, .. } => content.len(),
        }
    }
}

impl Message {
    pub open spec fn view(&self) -> MessageModel {
        match self {
            Message::User { content } => MessageModel::User { content: content@ },
            Message::Assistant { content, usage, stop_reason, error } => MessageModel::Assistant {
                content: contents(content@),
                usage: *usage,
                stop_reason: *stop_reason,
                error: text::opt(*error),
            },
            Message::ToolResult { tool_call_id, tool_name, content, is_error, blob } => {
                MessageModel::ToolResult {
                    tool_call_id: tool_call_id@,
                    tool_name: tool_name@,
                    content: content@,
                    is_error: *is_error,
                    blob: text::opt(*blob),
                }
            },
        }
    }

    /// A message of the user.
    pub fn user(content: String) -> (r: Message)
        ensures
            r@ == (MessageModel::User { content: content@ }),
    {
        Message::User { content }
    }

    /// Character count used by the chars/4 token estimate.
    pub fn char_len(&self) -> (r: usize)
        ensures
            r == capped(self@.char_len() as int, usize::MAX as int),
    {
        match self {
            Message::User { content } => text::char_count(content.as_str()),
            Message::Assistant { content, .. } => {
                let ghost all = contents(content@);
                let mut sum: usize = 0;
                let mut i: usize = 0;
                assert(all.take(0) =~= Seq::empty());
                while i < content.len()
                    invariant
                        i <= content@.len(),
                        all == contents(content@),
                        sum == capped(blocks_len(all.take(i as int)) as int, usize::MAX as int),
                    decreases content@.len() - i,
                {
                    assert(all.take(i + 1).drop_last() =~= all.take(i as int));
                    assert(all.take(i + 1).last() == content@[i as int]@);
                    let n: usize = match &content[i] {
                        ContentBlock::Text { text } => text::char_count(text.as_str()),
                        ContentBlock::Thinking { text, .. } => text::char_count(text.as_str()),
                        ContentBlock::ToolCall { name, input, .. } => {
                            let written = input.to_text();
                            text::char_count(name.as_str()).saturating_add(
                                text::char_count(written.as_str()),
                            )
                        },
                    };
                    sum = sum.saturating_add(n);
                    i += 1;
                }
                assert(all.take(i as int) =~= all);
                sum
            },
            Message::ToolResult { content, .. } => text::char_count(content.as_str()),
        }
    }

    /// The blocks of an assistant message; none of any other.
    pub fn tool_calls(&self) -> (r: &[ContentBlock])
        ensures
            contents(r@) == (match self@ {
                MessageModel::Assistant { content, .. } => content,
                _ => Seq::empty(),
            }),
    {
        match self {
            Message::Assistant { content, .. } => content.as_slice(),
            _ => {
                let none: &[ContentBlock] = &[];
                assert(contents(none@) =~= Seq::empty());
                none
            },
        }
    }
}

impl Clone for Message {
    fn clone(&self) -> (r: Message)
        ensures
            r@ == self@,
    {
        match self {
            Message::User { content } => Message::User { content: content.clone() },
            Message::Assistant { content, usage, stop_reason, error } => Message::Assistant {
                content: clone_contents(content),
                usage: *usage,
                stop_reason: *stop_reason,
                error: text::clone_opt(error),
            },
            Message::ToolResult { tool_call_id, tool_name, content, is_error, blob } => {
                Message::ToolResult {
                    tool_call_id: tool_call_id.clone(),
                    tool_name: tool_name.clone(),
                    content: content.clone(),
                    is_error: *is_error,
                    blob: text::clone_opt(blob),
                }
            },
        }
    }
}

/// What the messages `ms` hold.
pub open spec fn messages(ms: Seq<Message>) -> Seq<MessageModel> {
    Seq::new(ms.len(), |i: int| ms[i]@)
}

/// How many characters count as one token. A tokenizer would be exact; the
/// provider's own count corrects the estimate.
pub const CHARS_PER_TOKEN: usize = 4;

/// The low 32 bits of `n`.
pub open spec fn low32(n: u64) -> u32 {
    (n % 0x1_0000_0000) as u32
}

/// The low 32 bits of `n`.
pub fn truncate32(n: u64) -> (r: u32)
    ensures
        r == low32(n),
{
    (n % 0x1_0000_0000) as u32
}

/// The token estimate for so many characters, in 32 bits.
pub open spec fn tokens_of(chars: int) -> int {
    (chars / 4) % 0x1_0000_0000
}

/// Tokens of `chars` characters, as an estimate.
pub fn estimate_tokens(chars: usize) -> (r: u32)
    ensures
        r == tokens_of(chars as int),
{
    truncate32((chars / CHARS_PER_TOKEN) as u64)
}

/// Characters of all messages together.
pub open spec fn messages_len(ms: Seq<MessageModel>) -> nat
    decreases ms.len(),
{
    if ms.len() == 0 {
        0
    } else {
        messages_len(ms.drop_last()) + ms.last().char_len()
    }
}

/// Tokens of a whole conversation, as an estimate.
pub fn estimate_context_tokens(ms: &[Message]) -> (r: u32)
    ensures
        r == tokens_of(capped(messages_len(messages(ms@)) as int, usize::MAX as int)),
{
    let ghost all = messages(ms@);
    let mut sum: usize = 0;
    let mut i: usize = 0;
    assert(all.take(0) =~= Seq::empty());
    while i < ms.len()
        invariant
            i <= ms@.len(),
            all == messages(ms@),
            sum == capped(messages_len(all.take(i as int)) as int, usize::MAX as int),
        decreases ms@.len() - i,
    {
        assert(all.take(i + 1).drop_last() =~= all.take(i as int));
        assert(all.take(i + 1).last() == ms@[i as int]@);
        sum = sum.saturating_add(ms[i].char_len());
        i += 1;
    }
    assert(all.take(i as int) =~= all);
    estimate_tokens(sum)
}

/// What a provider reports while a response is in flight.
#[derive(Debug, PartialEq)]
pub enum StreamEvent {
    TextDelta(String),
    ThinkingDelta(String),
    ToolCallStart { id: String, name: String },
    ToolCallDelta(String),
    ToolCallEnd,
    Usage(Usage),
    Done(StopReason),
}

/// What a [`StreamEvent`] holds.
pub enum StreamModel {
    TextDelta(Seq<char>),
    ThinkingDelta(Seq<char>),
    ToolCallStart { id: Seq<char>, name: Seq<char> },
    ToolCallDelta(Seq<char>),
    ToolCallEnd,
    Usage(Usage),
    Done(StopReason),
}

impl StreamEvent {
    pub open spec fn view(&self) -> StreamModel {
        match self {
            StreamEvent::TextDelta(t) => StreamModel::TextDelta(t@),
            StreamEvent::ThinkingDelta(t) => StreamModel::ThinkingDelta(t@),
            StreamEvent::ToolCallStart { id, name } => StreamModel::ToolCallStart {
                id: id@,
                name: name@,
            },
            StreamEvent::ToolCallDelta(t) => StreamModel::ToolCallDelta(t@),
            StreamEvent::ToolCallEnd => StreamModel::ToolCallEnd,
            StreamEvent::Usage(u) => StreamModel::Usage(*u),
            StreamEvent::Done(s) => StreamModel::Done(*s),
        }
    }
}

impl Clone for StreamEvent {
    fn clone(&self) -> (r: StreamEvent)
        ensures
            r@ == self@,
    {
        match self {
            StreamEvent::TextDelta(t) => StreamEvent::TextDelta(t.clone()),
            StreamEvent::ThinkingDelta(t) => StreamEvent::ThinkingDelta(t.clone()),
            StreamEvent::ToolCallStart { id, name } => StreamEvent::ToolCallStart {
                id: id.clone(),
                name: name.clone(),
            },
            StreamEvent::ToolCallDelta(t) => StreamEvent::ToolCallDelta(t.clone()),
            StreamEvent::ToolCallEnd => StreamEvent::ToolCallEnd,
            StreamEvent::Usage(u) => StreamEvent::Usage(*u),
            StreamEvent::Done(s) => StreamEvent::Done(*s),
        }
    }
}

/// What the events `es` hold.
pub open spec fn events(es: Seq<StreamEvent>) -> Seq<StreamModel> {
    Seq::new(es.len(), |i: int| es[i]@)
}

/// The size of a conversation is that of its parts: every character of every message
/// counts, wherever the messages are split.
pub proof fn law_sizes_add_up(a: Seq<MessageModel>, b: Seq<MessageModel>)
    ensures
        messages_len(a + b) == messages_len(a) + messages_len(b),
        forall|m: MessageModel| #[trigger] messages_len(seq![m]) == m.char_len(),
        messages_len(Seq::empty()) == 0,
    decreases b.len(),
{
    if b.len() > 0 {
        law_sizes_add_up(a, b.drop_last());
        assert((a + b).drop_last() =~= a + b.drop_last());
    } else {
        assert(a + b =~= a);
    }
    assert forall|m: MessageModel| #[trigger] messages_len(seq![m]) == m.char_len() by {
        assert(seq![m].drop_last() =~= Seq::empty());
        assert(messages_len(Seq::empty()) == 0);
    }
}

/// An answer counts for its text, its reasoning, and the name and the input of each
/// tool call, block by block.
pub proof fn law_every_block_counts(content: Seq<ContentModel>, b: ContentModel)
    ensures
        blocks_len(content.push(b)) == blocks_len(content) + (match b {
            ContentModel::Text { text } => text.len(),
            ContentModel::Thinking { text, .. } => text.len(),
            ContentModel::ToolCall { name, input, .. } => name.len() + json::json_text(
                input,
            ).len(),
        }),
        blocks_len(Seq::empty()) == 0,
{
    assert(content.push(b).drop_last() =~= content);
}

/// A token is estimated for every four characters.
pub proof fn law_four_characters_a_token(chars: int)
    requires
        0 <= chars < 4 * 0x1_0000_0000,
    ensures
        4 * tokens_of(chars) <= chars < 4 * tokens_of(chars) + 4,
{
}

} // verus!
