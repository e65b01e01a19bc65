//! Compaction of the context window.
//!
//! When the conversation approaches the model's context window, its older part
//! is replaced by a summary that the model writes, and the recent turns are kept
//! as they are.
use crate::json;
use crate::llm::Request;
use crate::text;
use crate::types;
use crate::types::{ContentBlock, ContentModel, Message, MessageModel, StreamEvent, StreamModel, Usage};
use vstd::prelude::*;

verus! {

broadcast use vstd::std_specs::vec::axiom_spec_len;

/// Room left for the next response, so that compaction comes before the
/// provider rejects the request.
pub const RESERVE_TOKENS: u32 = 16_384;

/// Recent tail that is kept as it is.
pub const KEEP_RECENT_TOKENS: u32 = 20_000;

/// Cap on the summary, so that compaction cannot itself fill the window.
pub const MAX_SUMMARY_CHARS: usize = 16_000;

pub const SUMMARIZATION_PROMPT: &'static str = "\
You are summarizing a conversation so it can continue with less context.

Write a summary that preserves everything needed to carry on: what the user asked \
for, decisions taken and why, files and commands touched with their paths, results \
and errors seen, and what is still outstanding. Prefer concrete detail over \
description of the conversation. Do not address the user; write notes for yourself.";

/// Whether the conversation has grown close enough to the window to compact.
/// A window smaller than the reserve is always too small.
pub fn should_compact(context_tokens: u32, context_window: u32) -> (r: bool)
    ensures
        r == (context_tokens > (if context_window >= RESERVE_TOKENS {
            context_window - RESERVE_TOKENS
        } else {
            0
        })),
{
    context_tokens > context_window.saturating_sub(RESERVE_TOKENS)
}

/// Tokens in the window: the provider's own count where it says something, else
/// the estimate.
pub open spec fn tokens_in_window(messages: Seq<MessageModel>, last: Usage) -> int {
    let reported = types::capped(
        last.input + last.cache_read + last.cache_write + last.output,
        u32::MAX as int,
    );
    if reported > 0 {
        reported
    } else {
        types::tokens_of(
            types::capped(types::messages_len(messages) as int, usize::MAX as int),
        )
    }
}

/// Tokens in the window.
pub fn context_tokens(messages: &[Message], last: &Usage) -> (r: u32)
    ensures
        r == tokens_in_window(types::messages(messages@), *last),
{
    let reported = last.context_tokens();
    if reported > 0 {
        reported
    } else {
        types::estimate_context_tokens(messages)
    }
}

/// The token estimate of one message.
pub open spec fn message_tokens(m: MessageModel) -> int {
    types::tokens_of(types::capped(m.char_len() as int, usize::MAX as int))
}

/// The token estimate of the messages from `i` on.
pub open spec fn tail_tokens(ms: Seq<MessageModel>, i: int) -> int
    decreases ms.len() - i,
{
    if i < 0 || i >= ms.len() {
        0
    } else {
        message_tokens(ms[i]) + tail_tokens(ms, i + 1)
    }
}

/// The last position before `n` from which the tail fills the budget; zero where
/// there is none.
pub open spec fn tail_start(ms: Seq<MessageModel>, n: int) -> int
    decreases n,
{
    if n <= 0 {
        0
    } else if tail_tokens(ms, n - 1) >= KEEP_RECENT_TOKENS {
        n - 1
    } else {
        tail_start(ms, n - 1)
    }
}

/// The first message of the user from `i` on.
pub open spec fn user_from(ms: Seq<MessageModel>, i: int) -> Option<int>
    decreases ms.len() - i,
{
    if i < 0 || i >= ms.len() {
        None
    } else if ms[i] is User {
        Some(i)
    } else {
        user_from(ms, i + 1)
    }
}

/// The last message of the user before `n`.
pub open spec fn user_before(ms: Seq<MessageModel>, n: int) -> Option<int>
    decreases n,
{
    if n <= 0 || n > ms.len() {
        None
    } else if ms[n - 1] is User {
        Some(n - 1)
    } else {
        user_before(ms, n - 1)
    }
}

/// The first message to keep: the first turn that starts within the recent tail,
/// else the last turn there is, else everything.
pub open spec fn cut_point(ms: Seq<MessageModel>) -> int {
    match user_from(ms, tail_start(ms, ms.len() as int)) {
        Some(i) => i,
        None => match user_before(ms, ms.len() as int) {
            Some(i) => i,
            None => 0,
        },
    }
}

/// The first user message from `i` on.
pub proof fn lemma_user_from(ms: Seq<MessageModel>, i: int)
    requires
        0 <= i,
    ensures
        match user_from(ms, i) {
            Some(j) => {
                &&& i <= j < ms.len()
                &&& ms[j] is User
                &&& forall|k: int| i <= k < j ==> !(#[trigger] ms[k] is User)
            },
            None => forall|j: int| i <= j < ms.len() ==> !(#[trigger] ms[j] is User),
        },
    decreases ms.len() - i,
{
    if i < ms.len() && !(ms[i] is User) {
        lemma_user_from(ms, i + 1);
    }
}

/// The last user message before `n`.
pub proof fn lemma_user_before(ms: Seq<MessageModel>, n: int)
    requires
        n <= ms.len(),
    ensures
        match user_before(ms, n) {
            Some(j) => {
                &&& 0 <= j < n
                &&& ms[j] is User
                &&& forall|k: int| j < k < n ==> !(#[trigger] ms[k] is User)
            },
            None => forall|j: int| 0 <= j < n ==> !(#[trigger] ms[j] is User),
        },
    decreases n,
{
    if n > 0 && !(ms[n - 1] is User) {
        lemma_user_before(ms, n - 1);
    }
}

proof fn lemma_tail_start(ms: Seq<MessageModel>, n: int)
    requires
        0 <= n <= ms.len(),
    ensures
        0 <= tail_start(ms, n) <= n,
        n > 0 ==> tail_start(ms, n) < n,
    decreases n,
{
    if n > 0 && tail_tokens(ms, n - 1) < KEEP_RECENT_TOKENS {
        lemma_tail_start(ms, n - 1);
    }
}

/// Compaction never splits a turn and never drops everything: what is kept
/// starts with a message of the user wherever there is one at all.
pub proof fn law_cut_is_a_turn_boundary(ms: Seq<MessageModel>)
    ensures
        0 <= cut_point(ms) <= ms.len(),
        ms.len() > 0 ==> cut_point(ms) < ms.len(),
        cut_point(ms) > 0 ==> ms[cut_point(ms)] is User,
        (exists|i: int| 0 <= i < ms.len() && #[trigger] ms[i] is User) ==> ms[cut_point(
            ms,
        )] is User,
{
    lemma_tail_start(ms, ms.len() as int);
    lemma_user_from(ms, tail_start(ms, ms.len() as int));
    lemma_user_before(ms, ms.len() as int);
}

/// The estimated tokens of the messages from `i` on.
pub open spec fn tokens_kept(ms: Seq<MessageModel>, i: int) -> int {
    ms.skip(i).fold_left(0int, |sum: int, m: MessageModel| sum + message_tokens(m))
}

/// The messages from `p` on are the shortest tail that reaches the budget; where no
/// tail does, `p` is the beginning.
pub open spec fn reaches_budget(ms: Seq<MessageModel>, p: int) -> bool {
    &&& 0 <= p <= ms.len()
    &&& tokens_kept(ms, p) >= KEEP_RECENT_TOKENS || p == 0
    &&& forall|q: int| p < q <= ms.len() ==> #[trigger] tokens_kept(ms, q) < KEEP_RECENT_TOKENS
}

proof fn lemma_sum_from(ms: Seq<MessageModel>, b: int)
    ensures
        ms.fold_left(b, |sum: int, m: MessageModel| sum + message_tokens(m)) == b + ms.fold_left(
            0int,
            |sum: int, m: MessageModel| sum + message_tokens(m),
        ),
    decreases ms.len(),
{
    reveal_with_fuel(Seq::fold_left, 2);
    if ms.len() > 0 {
        lemma_sum_from(ms.drop_last(), b);
    }
}

proof fn lemma_tail_tokens(ms: Seq<MessageModel>, i: int)
    requires
        0 <= i <= ms.len(),
    ensures
        tail_tokens(ms, i) == tokens_kept(ms, i),
    decreases ms.len() - i,
{
    let f = |sum: int, m: MessageModel| sum + message_tokens(m);
    reveal_with_fuel(Seq::fold_left, 2);
    if i < ms.len() {
        lemma_tail_tokens(ms, i + 1);
        let tail = ms.skip(i);
        tail.lemma_fold_left_split(0int, f, 1);
        assert(tail.subrange(0, 1) =~= seq![ms[i]]);
        assert(tail.subrange(1, tail.len() as int) =~= ms.skip(i + 1));
        assert(seq![ms[i]].drop_last() =~= Seq::empty());
        assert(seq![ms[i]].fold_left(0int, f) == message_tokens(ms[i]));
        lemma_sum_from(ms.skip(i + 1), message_tokens(ms[i]));
    } else {
        assert(ms.skip(i) =~= Seq::empty());
    }
}

proof fn lemma_tail_start_reaches(ms: Seq<MessageModel>, n: int)
    requires
        0 <= n <= ms.len(),
    ensures
        ({
            let p = tail_start(ms, n);
            &&& 0 <= p <= n
            &&& tail_tokens(ms, p) >= KEEP_RECENT_TOKENS || p == 0
            &&& forall|q: int| p < q < n ==> #[trigger] tail_tokens(ms, q) < KEEP_RECENT_TOKENS
        }),
    decreases n,
{
    if n > 0 && tail_tokens(ms, n - 1) < KEEP_RECENT_TOKENS {
        lemma_tail_start_reaches(ms, n - 1);
    }
}

/// A compaction keeps the recent tail. The cut is the first user message at or behind
/// the place from which the messages reach the budget; where none stands there it is
/// the last user message of all, and where there is none at all nothing is cut.
pub proof fn law_cut_keeps_the_recent_tail(ms: Seq<MessageModel>, p: int)
    requires
        reaches_budget(ms, p),
    ensures
        (exists|i: int| p <= i < ms.len() && #[trigger] ms[i] is User) ==> {
            &&& p <= cut_point(ms) < ms.len()
            &&& ms[cut_point(ms)] is User
            &&& forall|i: int| p <= i < cut_point(ms) ==> !(#[trigger] ms[i] is User)
        },
        (forall|i: int| p <= i < ms.len() ==> !(#[trigger] ms[i] is User)) && (exists|i: int|
            0 <= i < p && #[trigger] ms[i] is User) ==> {
            &&& 0 <= cut_point(ms) < p
            &&& ms[cut_point(ms)] is User
            &&& forall|i: int| cut_point(ms) < i < ms.len() ==> !(#[trigger] ms[i] is User)
        },
        (forall|i: int| 0 <= i < ms.len() ==> !(#[trigger] ms[i] is User)) ==> cut_point(ms) == 0,
{
    let n = ms.len() as int;
    let start = tail_start(ms, n);
    lemma_tail_start_reaches(ms, n);
    lemma_tail_tokens(ms, start);
    lemma_tail_tokens(ms, p);
    assert(start == p) by {
        if start < p {
            if p < n {
                assert(tail_tokens(ms, p) < KEEP_RECENT_TOKENS);
            }
        } else if p < start {
            assert(tokens_kept(ms, start) < KEEP_RECENT_TOKENS);
        }
    }
    lemma_user_from(ms, p);
    lemma_user_before(ms, n);
}

/// Every conversation has one place from which it reaches the budget.
pub proof fn law_budget_is_reached_somewhere(ms: Seq<MessageModel>)
    ensures
        exists|p: int| reaches_budget(ms, p),
{
    let n = ms.len() as int;
    let p = tail_start(ms, n);
    lemma_tail_start_reaches(ms, n);
    lemma_tail_tokens(ms, p);
    assert forall|q: int| p < q <= n implies #[trigger] tokens_kept(ms, q)
        < KEEP_RECENT_TOKENS by {
        lemma_tail_tokens(ms, q);
    }
    assert(reaches_budget(ms, p));
}

/// The block calls a tool under this id.
pub open spec fn calls_under(b: ContentModel, id: Seq<char>) -> bool {
    b matches ContentModel::ToolCall { id: own, .. } && own == id
}

/// Message `i` makes the call that message `j` is the result of, in the same turn.
pub open spec fn answers(ms: Seq<MessageModel>, i: int, j: int) -> bool {
    &&& 0 <= i < j < ms.len()
    &&& forall|k: int| i < k < j ==> !(#[trigger] ms[k] is User)
    &&& ms[i] matches MessageModel::Assistant { content, .. } && ms[j] matches MessageModel::ToolResult {
        tool_call_id,
        ..
    } && exists|b: int| 0 <= b < content.len() && calls_under(#[trigger] content[b], tool_call_id)
}

/// Every tool result follows the call it belongs to, in the same turn.
pub open spec fn results_follow_calls(ms: Seq<MessageModel>) -> bool {
    forall|j: int|
        0 <= j < ms.len() && #[trigger] ms[j] is ToolResult ==> exists|i: int| answers(ms, i, j)
}

/// What compaction keeps has no orphaned tool result: where every result follows
/// its call, it still does behind the summary.
pub proof fn law_no_result_is_orphaned(ms: Seq<MessageModel>, summary: Seq<char>)
    requires
        results_follow_calls(ms),
    ensures
        results_follow_calls(seq![summary_message(summary)] + ms.skip(cut_point(ms))),
{
    law_cut_is_a_turn_boundary(ms);
    let cut = cut_point(ms);
    let kept = seq![summary_message(summary)] + ms.skip(cut);
    assert forall|j: int| 0 <= j < kept.len() && #[trigger] kept[j] is ToolResult implies exists|
        i: int,
    | answers(kept, i, j) by {
        let at = j - 1 + cut;
        assert(kept[j] == ms[at]);
        let from = choose|i: int| answers(ms, i, at);
        assert(answers(ms, from, at));
        if from < cut {
            assert(ms[cut] is User);
        }
        let i = from - cut + 1;
        assert(kept[i] == ms[from]);
        assert forall|k: int| i < k < j implies !(#[trigger] kept[k] is User) by {
            assert(kept[k] == ms[k - 1 + cut]);
        }
        assert(answers(kept, i, j));
    }
}

/// The start of a conversation has no orphaned tool result where the whole has
/// none: what a rewound conversation keeps is such a start.
pub proof fn law_no_result_is_orphaned_by_rewinding(ms: Seq<MessageModel>, at: int)
    requires
        results_follow_calls(ms),
        0 <= at <= ms.len(),
    ensures
        results_follow_calls(ms.take(at)),
{
    let kept = ms.take(at);
    assert forall|j: int| 0 <= j < kept.len() && #[trigger] kept[j] is ToolResult implies exists|
        i: int,
    | answers(kept, i, j) by {
        assert(kept[j] == ms[j]);
        let i = choose|i: int| answers(ms, i, j);
        assert(kept[i] == ms[i]);
        assert forall|k: int| i < k < j implies !(#[trigger] kept[k] is User) by {
            assert(kept[k] == ms[k]);
        }
        assert(answers(kept, i, j));
    }
}

/// The first message to keep, so that the tail is roughly
/// [`KEEP_RECENT_TOKENS`] and no turn is split.
pub fn find_cut_point(messages: &[Message]) -> (r: usize)
    ensures
        r == cut_point(types::messages(messages@)),
        r <= messages@.len(),
        messages@.len() > 0 ==> r < messages@.len(),
{
    let ghost all = types::messages(messages@);
    proof {
        law_cut_is_a_turn_boundary(all);
    }
    let mut kept: u32 = 0;
    let mut start: usize = messages.len();
    let mut i: usize = messages.len();
    while i > 0
        invariant_except_break
            i <= messages@.len(),
            all == types::messages(messages@),
            start == i,
            kept < KEEP_RECENT_TOKENS,
            kept == tail_tokens(all, i as int),
            tail_start(all, all.len() as int) == tail_start(all, i as int),
        ensures
            start == tail_start(all, all.len() as int),
            start <= messages@.len(),
        decreases i,
    {
        i -= 1;
        start = i;
        assert(all[i as int] == messages@[i as int]@);
        kept = kept.saturating_add(types::estimate_tokens(messages[i].char_len()));
        if kept >= KEEP_RECENT_TOKENS {
            break;
        }
    }
    let mut cut: usize = start;
    while cut < messages.len() && !is_user(&messages[cut])
        invariant
            start <= cut <= messages@.len(),
            all == types::messages(messages@),
            user_from(all, start as int) == user_from(all, cut as int),
        decreases messages@.len() - cut,
    {
        assert(all[cut as int] == messages@[cut as int]@);
        cut += 1;
    }
    if cut < messages.len() {
        assert(all[cut as int] == messages@[cut as int]@);
        return cut;
    }
    let mut k: usize = messages.len();
    while k > 0
        invariant
            k <= messages@.len(),
            all == types::messages(messages@),
            user_before(all, all.len() as int) == user_before(all, k as int),
            user_from(all, tail_start(all, all.len() as int)) is None,
        decreases k,
    {
        assert(all[k - 1] == messages@[k - 1]@);
        if is_user(&messages[k - 1]) {
            return k - 1;
        }
        k -= 1;
    }
    0
}

pub(crate) fn is_user(m: &Message) -> (r: bool)
    ensures
        r == (m@ is User),
{
    match m {
        Message::User { .. } => true,
        _ => false,
    }
}

/// What the summarizer reads of one block. Reasoning is left out.
pub open spec fn rendered_block(b: ContentModel) -> Seq<char> {
    match b {
        ContentModel::Text { text } => text,
        ContentModel::ToolCall { name, input, .. } => "[called "@ + name + " with "@
            + json::json_text(input) + "]"@,
        ContentModel::Thinking { .. } => Seq::empty(),
    }
}

pub open spec fn rendered_blocks(bs: Seq<ContentModel>) -> Seq<char>
    decreases bs.len(),
{
    if bs.len() == 0 {
        Seq::empty()
    } else {
        rendered_blocks(bs.drop_last()) + rendered_block(bs.last())
    }
}

/// What the summarizer reads of one message; of a tool result, only the start.
pub open spec fn rendered(m: MessageModel) -> Seq<char> {
    match m {
        MessageModel::User { content } => "USER: "@ + content + "\n\n"@,
        MessageModel::Assistant { content, .. } => "ASSISTANT: "@ + rendered_blocks(content)
            + "\n\n"@,
        MessageModel::ToolResult { tool_name, content, is_error, .. } => "TOOL "@ + tool_name + (
        if is_error {
            " (error)"@
        } else {
            ""@
        }) + ": "@ + text::prefix(content, 2000) + "\n\n"@,
    }
}

pub open spec fn rendered_all(ms: Seq<MessageModel>) -> Seq<char>
    decreases ms.len(),
{
    if ms.len() == 0 {
        Seq::empty()
    } else {
        rendered_all(ms.drop_last()) + rendered(ms.last())
    }
}

/// The messages as text for the summarizer.
pub fn render_for_summary(messages: &[Message]) -> (r: String)
    ensures
        r@ == rendered_all(types::messages(messages@)),
{
    let ghost all = types::messages(messages@);
    let mut out = String::new();
    let mut i: usize = 0;
    assert(all.take(0) =~= Seq::empty());
    while i < messages.len()
        invariant
            i <= messages@.len(),
            all == types::messages(messages@),
            out@ == rendered_all(all.take(i as int)),
        decreases messages@.len() - i,
    {
        assert(all.take(i + 1).drop_last() =~= all.take(i as int));
        assert(all.take(i + 1).last() == messages@[i as int]@);
        let one = render_message(&messages[i]);
        out.push_str(one.as_str());
        i += 1;
    }
    assert(all.take(i as int) =~= all);
    out
}

fn render_message(m: &Message) -> (r: String)
    ensures
        r@ == rendered(m@),
{
    let mut out;
    match m {
        Message::User { content } => {
            out = "USER: ".to_owned();
            out.push_str(content.as_str());
        },
        Message::Assistant { content, .. } => {
            out = "ASSISTANT: ".to_owned();
            let blocks = render_blocks(content);
            out.push_str(blocks.as_str());
        },
        Message::ToolResult { tool_name, content, is_error, .. } => {
            out = "TOOL ".to_owned();
            out.push_str(tool_name.as_str());
            if *is_error {
                out.push_str(" (error)");
            } else {
                out.push_str("");
            }
            out.push_str(": ");
            let start = text::take_chars(content.as_str(), 2000);
            out.push_str(start.as_str());
        },
    }
    out.push_str("\n\n");
    out
}

fn render_blocks(bs: &Vec<ContentBlock>) -> (r: String)
    ensures
        r@ == rendered_blocks(types::contents(bs@)),
{
    let ghost all = types::contents(bs@);
    let mut out = String::new();
    let mut i: usize = 0;
    assert(all.take(0) =~= Seq::empty());
    while i < bs.len()
        invariant
            i <= bs@.len(),
            all == types::contents(bs@),
            out@ == rendered_blocks(all.take(i as int)),
        decreases bs@.len() - i,
    {
        assert(all.take(i + 1).drop_last() =~= all.take(i as int));
        assert(all.take(i + 1).last() == bs@[i as int]@);
        match &bs[i] {
            ContentBlock::Text { text } => out.push_str(text.as_str()),
            ContentBlock::ToolCall { name, input, .. } => {
                let mut call = "[called ".to_owned();
                call.push_str(name.as_str());
                call.push_str(" with ");
                let written = input.to_text();
                call.push_str(written.as_str());
                call.push_str("]");
                out.push_str(call.as_str());
            },
            ContentBlock::Thinking { .. } => {
                assert(out@ + Seq::<char>::empty() =~= out@);
            },
        }
        i += 1;
    }
    assert(all.take(i as int) =~= all);
    out
}

/// What the model is asked, to summarize `messages`.
pub fn summary_ask(messages: &[Message]) -> (r: Message)
    ensures
        r@ == (MessageModel::User {
            content: "Summarize this conversation:\n\n<transcript>\n"@ + rendered_all(
                types::messages(messages@),
            ) + "\n</transcript>"@,
        }),
{
    let mut out = "Summarize this conversation:\n\n<transcript>\n".to_owned();
    let transcript = render_for_summary(messages);
    out.push_str(transcript.as_str());
    out.push_str("\n</transcript>");
    Message::user(out)
}

/// The request that carries [`summary_ask`].
pub fn summary_request<'a>(ask: &'a [Message]) -> (r: Request<'a>)
    ensures
        r.system@ == SUMMARIZATION_PROMPT@,
        r.messages@ == ask@,
        r.tools@.len() == 0,
        r.max_tokens == 4096,
        r.temperature is None,
        !r.stream_usage,
{
    Request {
        system: SUMMARIZATION_PROMPT,
        messages: ask,
        tools: &[],
        max_tokens: 4096,
        temperature: None,
        stream_usage: false,
    }
}

/// Adds what an event of the summarizing answer says: its text, nothing else.
pub fn add_to_summary(summary: &mut String, ev: &StreamEvent)
    ensures
        final(summary)@ == (match ev@ {
            StreamModel::TextDelta(t) => old(summary)@ + t,
            _ => old(summary)@,
        }),
{
    if let StreamEvent::TextDelta(t) = ev {
        summary.push_str(t.as_str());
    }
}

/// The summary that is kept: as many whole characters as fit the cap.
pub fn bound_summary(summary: &str) -> (r: String)
    ensures
        r@ == summary@.take(text::fitting(summary@, MAX_SUMMARY_CHARS as int)),
        text::byte_len(r@) <= MAX_SUMMARY_CHARS,
{
    proof {
        text::law_fitting_is_longest(summary@, MAX_SUMMARY_CHARS as int);
    }
    let cs = text::chars_of(summary);
    let n = text::count_fitting(cs.as_slice(), MAX_SUMMARY_CHARS);
    let r = text::slice_of(cs.as_slice(), 0, n);
    assert(r@ =~= summary@.take(n as int));
    r
}

/// The message that carries a summary.
pub open spec fn summary_message(summary: Seq<char>) -> MessageModel {
    MessageModel::User { content: "[Summary of the earlier conversation]\n\n"@ + summary }
}

/// The compacted conversation: the summary as a message of the user, then the
/// messages from `cut` on.
pub fn apply(summary: &str, messages: &[Message], cut: usize) -> (r: Vec<Message>)
    requires
        cut <= messages@.len(),
    ensures
        types::messages(r@) == seq![summary_message(summary@)] + types::messages(
            messages@,
        ).skip(cut as int),
{
    let mut out: Vec<Message> = Vec::new();
    let mut first = "[Summary of the earlier conversation]\n\n".to_owned();
    first.push_str(summary);
    out.push(Message::user(first));
    let ghost kept = types::messages(messages@).skip(cut as int);
    let mut i: usize = cut;
    while i < messages.len()
        invariant
            cut <= i <= messages@.len(),
            kept == types::messages(messages@).skip(cut as int),
            out@.len() == i - cut + 1,
            out@[0]@ == summary_message(summary@),
            forall|j: int| 0 <= j < i - cut ==> (#[trigger] out@[j + 1])@ == kept[j],
        decreases messages@.len() - i,
    {
        let ghost before = out@;
        out.push(messages[i].clone());
        assert forall|j: int| 0 <= j < i + 1 - cut implies (#[trigger] out@[j + 1])@
            == kept[j] by {
            if j < i - cut {
                assert(out@[j + 1] == before[j + 1]);
            }
        }
        i += 1;
    }
    assert(types::messages(out@) =~= seq![summary_message(summary@)] + kept) by {
        assert forall|k: int| 0 <= k < out@.len() implies (#[trigger] types::messages(out@)[k])
            == (seq![summary_message(summary@)] + kept)[k] by {
            if k > 0 {
                assert(out@[(k - 1) + 1]@ == kept[k - 1]);
            }
        }
    }
    out
}

/// What is summarized is the whole conversation, message by message and in order, with
/// all that was said.
pub proof fn law_all_is_summarized(ms: Seq<MessageModel>)
    ensures
        rendered_all(ms) == ms.flat_map(
            |m: MessageModel|
                match m {
                    MessageModel::User { content } => "USER: "@ + content + "\n\n"@,
                    MessageModel::Assistant { content, .. } => "ASSISTANT: "@ + content.flat_map(
                        |b: ContentModel|
                            match b {
                                ContentModel::Text { text } => text,
                                ContentModel::ToolCall { name, input, .. } => "[called "@ + name
                                    + " with "@ + json::json_text(input) + "]"@,
                                ContentModel::Thinking { .. } => Seq::<char>::empty(),
                            },
                    ) + "\n\n"@,
                    MessageModel::ToolResult { tool_name, content, is_error, .. } => "TOOL "@
                        + tool_name + (if is_error {
                        " (error)"@
                    } else {
                        Seq::<char>::empty()
                    }) + ": "@ + (if content.len() <= 2000 {
                        content
                    } else {
                        content.take(2000)
                    }) + "\n\n"@,
                },
        ),
    decreases ms.len(),
{
    let f = |m: MessageModel|
        match m {
            MessageModel::User { content } => "USER: "@ + content + "\n\n"@,
            MessageModel::Assistant { content, .. } => "ASSISTANT: "@ + content.flat_map(
                |b: ContentModel|
                    match b {
                        ContentModel::Text { text } => text,
                        ContentModel::ToolCall { name, input, .. } => "[called "@ + name
                            + " with "@ + json::json_text(input) + "]"@,
                        ContentModel::Thinking { .. } => Seq::<char>::empty(),
                    },
            ) + "\n\n"@,
            MessageModel::ToolResult { tool_name, content, is_error, .. } => "TOOL "@ + tool_name
                + (if is_error {
                " (error)"@
            } else {
                Seq::<char>::empty()
            }) + ": "@ + (if content.len() <= 2000 {
                content
            } else {
                content.take(2000)
            }) + "\n\n"@,
        };
    if ms.len() > 0 {
        law_all_is_summarized(ms.drop_last());
        text::lemma_flat_map_last(ms, f);
        match ms.last() {
            MessageModel::Assistant { content, .. } => {
                lemma_rendered_blocks(content);
            },
            MessageModel::ToolResult { tool_name, content, is_error, .. } => {
                reveal_strlit("");
                assert(""@ =~= Seq::<char>::empty());
                if content.len() <= 2000 {
                    assert(text::prefix(content, 2000) =~= content);
                }
            },
            _ => {},
        }
        assert(f(ms.last()) == rendered(ms.last()));
    } else {
        assert(ms.map_values(f) =~= Seq::empty());
    }
}

proof fn lemma_rendered_blocks(bs: Seq<ContentModel>)
    ensures
        rendered_blocks(bs) == bs.flat_map(
            |b: ContentModel|
                match b {
                    ContentModel::Text { text } => text,
                    ContentModel::ToolCall { name, input, .. } => "[called "@ + name + " with "@
                        + json::json_text(input) + "]"@,
                    ContentModel::Thinking { .. } => Seq::<char>::empty(),
                },
        ),
    decreases bs.len(),
{
    let f = |b: ContentModel|
        match b {
            ContentModel::Text { text } => text,
            ContentModel::ToolCall { name, input, .. } => "[called "@ + name + " with "@
                + json::json_text(input) + "]"@,
            ContentModel::Thinking { .. } => Seq::<char>::empty(),
        };
    if bs.len() > 0 {
        lemma_rendered_blocks(bs.drop_last());
        text::lemma_flat_map_last(bs, f);
        assert(f(bs.last()) =~= rendered_block(bs.last()));
    } else {
        assert(bs.map_values(f) =~= Seq::empty());
    }
}

/// What fills the window is what the model reported of its last call; only where it
/// reported nothing is it estimated from the messages.
pub proof fn law_reported_tokens_count(ms: Seq<MessageModel>, last: Usage)
    ensures
        ({
            let sum = last.input + last.output + last.cache_read + last.cache_write;
            &&& 0 < sum <= u32::MAX ==> tokens_in_window(ms, last) == sum
            &&& sum > u32::MAX ==> tokens_in_window(ms, last) == u32::MAX
            &&& sum == 0 && types::messages_len(ms) <= usize::MAX ==> tokens_in_window(ms, last)
                == types::tokens_of(types::messages_len(ms) as int)
        }),
{
}

/// What was compacted is carried on by its summary, whole, ahead of what is kept.
pub proof fn law_summary_is_carried_on(summary: Seq<char>)
    ensures
        summary_message(summary) matches MessageModel::User { content } && content
            == "[Summary of the earlier conversation]\n\n"@ + summary,
{
}

} // verus!
