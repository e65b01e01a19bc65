//! The agent loop.
//!
//! One turn runs through these stages until the model has nothing more to do:
//! has it been cancelled, what was typed meanwhile, is the context too long, the
//! model call, and then the tools it called or its reply. The stages are decided
//! here; the caller does the work that each of them asks for and reports back.
use crate::compact;
use crate::config::{Config, ServerConfig, TelegramConfig};
use crate::json;
use crate::json::{Json, JsonModel, JsonObject};
use crate::llm;
use crate::llm::{Provider, Request, ToolSchema};
use crate::session::Session;
use crate::text;
use crate::tools;
use crate::types;
use crate::types::{ContentBlock, ContentModel, Message, MessageModel, StopReason, StreamEvent, StreamModel, Usage};
use vstd::prelude::*;

verus! {

broadcast use vstd::std_specs::vec::axiom_spec_len;

/// What a surface sees while a turn runs.
#[derive(Debug, PartialEq)]
pub enum AgentEvent {
    TurnStart,
    TextDelta(String),
    ThinkingDelta(String),
    ToolStart { name: String, input: String },
    ToolEnd { name: String, is_error: bool, preview: String },
    /// A complete reply, for surfaces that cannot show deltas.
    Reply(String),
    Compacted { dropped: usize },
    TurnEnd { usage: Usage },
    Error(String),
}

/// What an [`AgentEvent`] holds.
#[allow(inconsistent_fields)]
pub enum NoticeModel {
    TurnStart,
    TextDelta(Seq<char>),
    ThinkingDelta(Seq<char>),
    ToolStart { name: Seq<char>, input: Seq<char> },
    ToolEnd { name: Seq<char>, is_error: bool, preview: Seq<char> },
    Reply(Seq<char>),
    Compacted { dropped: usize },
    TurnEnd { usage: Usage },
    Error(Seq<char>),
}

impl AgentEvent {
    pub open spec fn view(&self) -> NoticeModel {
        match self {
            AgentEvent::TurnStart => NoticeModel::TurnStart,
            AgentEvent::TextDelta(t) => NoticeModel::TextDelta(t@),
            AgentEvent::ThinkingDelta(t) => NoticeModel::ThinkingDelta(t@),
            AgentEvent::ToolStart { name, input } => NoticeModel::ToolStart {
                name: name@,
                input: input@,
            },
            AgentEvent::ToolEnd { name, is_error, preview } => NoticeModel::ToolEnd {
                name: name@,
                is_error: *is_error,
                preview: preview@,
            },
            AgentEvent::Reply(t) => NoticeModel::Reply(t@),
            AgentEvent::Compacted { dropped } => NoticeModel::Compacted { dropped: *dropped },
            AgentEvent::TurnEnd { usage } => NoticeModel::TurnEnd { usage: *usage },
            AgentEvent::Error(t) => NoticeModel::Error(t@),
        }
    }
}

impl Clone for AgentEvent {
    fn clone(&self) -> (r: AgentEvent)
        ensures
            r@ == self@,
    {
        match self {
            AgentEvent::TurnStart => AgentEvent::TurnStart,
            AgentEvent::TextDelta(t) => AgentEvent::TextDelta(t.clone()),
            AgentEvent::ThinkingDelta(t) => AgentEvent::ThinkingDelta(t.clone()),
            AgentEvent::ToolStart { name, input } => AgentEvent::ToolStart {
                name: name.clone(),
                input: input.clone(),
            },
            AgentEvent::ToolEnd { name, is_error, preview } => AgentEvent::ToolEnd {
                name: name.clone(),
                is_error: *is_error,
                preview: preview.clone(),
            },
            AgentEvent::Reply(t) => AgentEvent::Reply(t.clone()),
            AgentEvent::Compacted { dropped } => AgentEvent::Compacted { dropped: *dropped },
            AgentEvent::TurnEnd { usage } => AgentEvent::TurnEnd { usage: *usage },
            AgentEvent::Error(t) => AgentEvent::Error(t.clone()),
        }
    }
}

/// What the events `es` hold.
pub open spec fn notices(es: Seq<AgentEvent>) -> Seq<NoticeModel> {
    Seq::new(es.len(), |i: int| es[i]@)
}

/// The agent: which model it talks to, and the one conversation that is loaded.
pub struct Agent {
    pub provider: Provider,
    pub cfg: Config,
    pub schemas: Vec<ToolSchema>,
    pub session: Session,
    /// The provider's last token counts for this conversation.
    pub last_usage: Usage,
    pub home: String,
}

impl Agent {
    /// An agent for `cfg`, given what the environment holds under the model's
    /// `api_key_env`, and the home directory.
    pub fn new(cfg: Config, session: Session, key: Option<String>, home: String) -> (r: Result<
        Agent,
        String,
    >)
        ensures
            match r {
                Ok(a) => {
                    &&& a.cfg == cfg
                    &&& a.session == session
                    &&& a.last_usage == Usage::zero()
                    &&& a.home == home
                    &&& a.schemas@.len() == tools::kinds().len()
                    &&& forall|i: int|
                        0 <= i < tools::kinds().len() ==> llm::schema_of(#[trigger] a.schemas@[i])
                            == (llm::SchemaModel {
                            name: tools::kinds()[i].name(),
                            description: tools::kinds()[i].description(),
                            input_schema: tools::kinds()[i].schema_model(),
                        })
                    &&& match a.provider {
                        Provider::Anthropic(c) => cfg.model.backend is Anthropic && c.is_for(
                            &cfg.model,
                            text::opt(key),
                        ),
                        Provider::OpenaiCompat(c) => cfg.model.backend is OpenaiCompat
                            && c.is_for(&cfg.model, text::opt(key)),
                    }
                },
                Err(e) => cfg.model.backend is Anthropic && llm::anthropic::key_of(
                    &cfg.model,
                    text::opt(key),
                ) is None && e@ == llm::anthropic::key_missing(cfg.model.api_key_env@),
            },
    {
        match Provider::new(&cfg.model, key) {
            Ok(provider) => Ok(
                Agent {
                    provider,
                    cfg,
                    schemas: tools::schemas(),
                    session,
                    last_usage: Usage::default(),
                    home,
                },
            ),
            Err(e) => Err(e),
        }
    }

    /// Loads another conversation. The old token counts describe one that is no
    /// longer loaded.
    pub fn switch_session(&mut self, session: Session)
        ensures
            final(self).session == session,
            final(self).last_usage == Usage::zero(),
            final(self).provider == old(self).provider,
            final(self).cfg == old(self).cfg,
            final(self).schemas == old(self).schemas,
            final(self).home == old(self).home,
    {
        self.session = session;
        self.last_usage = Usage::default();
    }

    pub fn home(&self) -> (r: &str)
        ensures
            r@ == self.home@,
    {
        self.home.as_str()
    }

    pub fn model_name(&self) -> (r: &str)
        ensures
            r@ == (match self.provider {
                Provider::Anthropic(c) => c.model@,
                Provider::OpenaiCompat(c) => c.model@,
            }),
    {
        self.provider.model_name()
    }

    pub fn telegram_config(&self) -> (r: &TelegramConfig)
        ensures
            *r == self.cfg.telegram,
    {
        &self.cfg.telegram
    }

    pub fn server_config(&self) -> (r: &ServerConfig)
        ensures
            *r == self.cfg.server,
    {
        &self.cfg.server
    }

    /// What the model is asked next: the whole conversation.
    pub fn request(&self) -> (r: Request<'_>)
        ensures
            r.system@ == self.cfg.agent.system_prompt@,
            r.messages@ == self.session.messages@,
            r.tools@ == self.schemas@,
            r.max_tokens == self.cfg.model.max_tokens,
            llm::temperature_of(r.temperature) == llm::temperature_of(self.cfg.model.temperature),
            r.stream_usage == self.cfg.model.stream_usage,
    {
        let temperature = match &self.cfg.model.temperature {
            Some(t) => Some(t.clone()),
            None => None,
        };
        Request {
            system: self.cfg.agent.system_prompt.as_str(),
            messages: self.session.messages.as_slice(),
            tools: self.schemas.as_slice(),
            max_tokens: self.cfg.model.max_tokens,
            temperature,
            stream_usage: self.cfg.model.stream_usage,
        }
    }

    /// Where the conversation is to be cut, and how many tokens it takes, where it
    /// is to be compacted now. A cut that drops nothing is none: compacting again
    /// would loop.
    pub fn compaction(&self) -> (r: Option<(usize, u32)>)
        ensures
            match r {
                Some((cut, used)) => {
                    &&& compaction_due(
                        types::messages(self.session.messages@),
                        self.last_usage,
                        self.cfg.model.context_window,
                    )
                    &&& cut == compact::cut_point(types::messages(self.session.messages@))
                    &&& cut < self.session.messages@.len()
                    &&& used == compact::tokens_in_window(
                        types::messages(self.session.messages@),
                        self.last_usage,
                    )
                },
                None => !compaction_due(
                    types::messages(self.session.messages@),
                    self.last_usage,
                    self.cfg.model.context_window,
                ),
            },
    {
        let used = compact::context_tokens(self.session.messages.as_slice(), &self.last_usage);
        if !compact::should_compact(used, self.cfg.model.context_window) {
            return None;
        }
        let cut = compact::find_cut_point(self.session.messages.as_slice());
        if cut == 0 {
            None
        } else {
            Some((cut, used))
        }
    }
}

/// The conversation fills the window but for the reserve, and there is something
/// to drop.
pub open spec fn compaction_due(ms: Seq<MessageModel>, last: Usage, window: u32) -> bool {
    &&& compact::tokens_in_window(ms, last) > (if window >= compact::RESERVE_TOKENS {
        window - compact::RESERVE_TOKENS
    } else {
        0
    })
    &&& compact::cut_point(ms) > 0
}

/// What is shown where a compaction failed. It does not end the turn: the request
/// may still fit.
pub fn compaction_failed(reason: &str) -> (r: AgentEvent)
    ensures
        r@ == NoticeModel::Error("compaction failed: "@ + reason@),
{
    let mut out = "compaction failed: ".to_owned();
    out.push_str(reason);
    AgentEvent::Error(out)
}

/// An answer that is being put together.
pub struct Assembly {
    pub text: String,
    pub thinking: String,
    /// Id, name and arguments of each tool call.
    pub calls: Vec<PendingCall>,
    pub usage: Usage,
    pub stop: StopReason,
}

/// A tool call whose arguments are still JSON text.
#[derive(Debug, PartialEq)]
pub struct PendingCall {
    pub id: String,
    pub name: String,
    pub args: String,
}

/// What a [`PendingCall`] holds.
pub struct PendingModel {
    pub id: Seq<char>,
    pub name: Seq<char>,
    pub args: Seq<char>,
}

impl PendingCall {
    pub open spec fn view(&self) -> PendingModel {
        PendingModel { id: self.id@, name: self.name@, args: self.args@ }
    }
}

pub open spec fn pending(cs: Seq<PendingCall>) -> Seq<PendingModel> {
    Seq::new(cs.len(), |i: int| cs[i]@)
}

/// What an [`Assembly`] holds.
#[verifier::ext_equal]
pub struct AssemblyModel {
    pub text: Seq<char>,
    pub thinking: Seq<char>,
    pub calls: Seq<PendingModel>,
    pub usage: Usage,
    pub stop: StopReason,
}

pub open spec fn max32(a: u32, b: u32) -> u32 {
    if a >= b {
        a
    } else {
        b
    }
}

/// The larger of each count: providers report input and output apart.
pub open spec fn larger_usage(a: Usage, b: Usage) -> Usage {
    Usage {
        input: max32(a.input, b.input),
        output: max32(a.output, b.output),
        cache_read: max32(a.cache_read, b.cache_read),
        cache_write: max32(a.cache_write, b.cache_write),
    }
}

impl AssemblyModel {
    /// Nothing yet.
    pub open spec fn empty() -> AssemblyModel {
        AssemblyModel {
            text: Seq::empty(),
            thinking: Seq::empty(),
            calls: Seq::empty(),
            usage: Usage::zero(),
            stop: StopReason::Stop,
        }
    }

    /// One event more. Arguments go to the call that started last.
    pub open spec fn with(self, ev: StreamModel) -> AssemblyModel {
        match ev {
            StreamModel::TextDelta(t) => AssemblyModel { text: self.text + t, ..self },
            StreamModel::ThinkingDelta(t) => AssemblyModel { thinking: self.thinking + t, ..self },
            StreamModel::ToolCallStart { id, name } => AssemblyModel {
                calls: self.calls.push(PendingModel { id, name, args: Seq::empty() }),
                ..self
            },
            StreamModel::ToolCallDelta(t) => if self.calls.len() > 0 {
                let last = self.calls.last();
                AssemblyModel {
                    calls: self.calls.drop_last().push(
                        PendingModel { args: last.args + t, ..last },
                    ),
                    ..self
                }
            } else {
                self
            },
            StreamModel::ToolCallEnd => self,
            StreamModel::Usage(u) => AssemblyModel { usage: larger_usage(self.usage, u), ..self },
            StreamModel::Done(r) => AssemblyModel { stop: r, ..self },
        }
    }

    /// All events of an answer.
    pub open spec fn of(es: Seq<StreamModel>) -> AssemblyModel
        decreases es.len(),
    {
        if es.len() == 0 {
            AssemblyModel::empty()
        } else {
            AssemblyModel::of(es.drop_last()).with(es.last())
        }
    }
}

/// An answer holds all text and all reasoning that were streamed, in order, and
/// nothing else.
pub proof fn law_nothing_streamed_is_lost(es: Seq<StreamModel>)
    ensures
        AssemblyModel::of(es).text == llm::streamed_text(es),
        AssemblyModel::of(es).thinking == llm::streamed_thinking(es),
    decreases es.len(),
{
    llm::lemma_streamed_one(StreamModel::ToolCallEnd);
    if es.len() > 0 {
        law_nothing_streamed_is_lost(es.drop_last());
        llm::lemma_streamed_one(es.last());
        llm::lemma_streamed_add(es.drop_last(), seq![es.last()]);
        assert(es.drop_last() + seq![es.last()] =~= es);
    } else {
        assert(es =~= Seq::empty());
    }
}

/// All text and all reasoning are shown while they stream: what is shown adds up to
/// what the answer holds.
pub proof fn law_shown_adds_up(es: Seq<StreamModel>)
    ensures
        AssemblyModel::of(es).text == es.flat_map(
            |e: StreamModel|
                match shown_at_once(e) {
                    Some(NoticeModel::TextDelta(t)) => t,
                    _ => Seq::<char>::empty(),
                },
        ),
        AssemblyModel::of(es).thinking == es.flat_map(
            |e: StreamModel|
                match shown_at_once(e) {
                    Some(NoticeModel::ThinkingDelta(t)) => t,
                    _ => Seq::<char>::empty(),
                },
        ),
{
    law_nothing_streamed_is_lost(es);
    assert(es.map_values(
        |e: StreamModel|
            match shown_at_once(e) {
                Some(NoticeModel::TextDelta(t)) => t,
                _ => Seq::<char>::empty(),
            },
    ) =~= es.map_values(
        |e: StreamModel|
            match e {
                StreamModel::TextDelta(t) => t,
                _ => Seq::<char>::empty(),
            },
    ));
    assert(es.map_values(
        |e: StreamModel|
            match shown_at_once(e) {
                Some(NoticeModel::ThinkingDelta(t)) => t,
                _ => Seq::<char>::empty(),
            },
    ) =~= es.map_values(
        |e: StreamModel|
            match e {
                StreamModel::ThinkingDelta(t) => t,
                _ => Seq::<char>::empty(),
            },
    ));
}

/// A tool call has the id and the name under which it started, and all arguments that
/// follow until the next one starts. The calls before it stay as they are.
pub proof fn law_call_takes_its_arguments(
    es: Seq<StreamModel>,
    id: Seq<char>,
    name: Seq<char>,
    rest: Seq<StreamModel>,
)
    requires
        forall|i: int| 0 <= i < rest.len() ==> !(#[trigger] rest[i] is ToolCallStart),
    ensures
        AssemblyModel::of(es.push(StreamModel::ToolCallStart { id, name }) + rest).calls
            == AssemblyModel::of(es).calls.push(
            PendingModel { id, name, args: llm::streamed_arguments(rest) },
        ),
    decreases rest.len(),
{
    let start = es.push(StreamModel::ToolCallStart { id, name });
    let all = start + rest;
    llm::lemma_streamed_one(StreamModel::ToolCallEnd);
    if rest.len() > 0 {
        let init = rest.drop_last();
        law_call_takes_its_arguments(es, id, name, init);
        assert(all.drop_last() =~= start + init);
        llm::lemma_streamed_one(rest.last());
        llm::lemma_streamed_add(init, seq![rest.last()]);
        assert(init + seq![rest.last()] =~= rest);
        let was = AssemblyModel::of(start + init).calls;
        assert(was.drop_last() =~= AssemblyModel::of(es).calls);
        assert(llm::streamed_arguments(init) + Seq::<char>::empty() =~= llm::streamed_arguments(
            init,
        ));
    } else {
        assert(all =~= start);
        assert(rest =~= Seq::empty());
        assert(start.drop_last() =~= es);
    }
}

/// Only a tool call that started is part of an answer.
pub proof fn law_no_start_no_call(es: Seq<StreamModel>)
    requires
        forall|i: int| 0 <= i < es.len() ==> !(#[trigger] es[i] is ToolCallStart),
    ensures
        AssemblyModel::of(es).calls.len() == 0,
    decreases es.len(),
{
    if es.len() > 0 {
        law_no_start_no_call(es.drop_last());
    }
}

/// Of the token counts that were streamed, the largest of each stands.
pub proof fn law_largest_usage_stands(es: Seq<StreamModel>)
    ensures
        ({
            let all = AssemblyModel::of(es).usage;
            &&& forall|i: int|
                0 <= i < es.len() ==> (#[trigger] es[i] matches StreamModel::Usage(u)
                    ==> u.input <= all.input && u.output <= all.output && u.cache_read
                    <= all.cache_read && u.cache_write <= all.cache_write)
            &&& all.input == 0 || exists|i: int|
                0 <= i < es.len() && (#[trigger] es[i] matches StreamModel::Usage(u) && u.input
                    == all.input)
            &&& all.output == 0 || exists|i: int|
                0 <= i < es.len() && (#[trigger] es[i] matches StreamModel::Usage(u) && u.output
                    == all.output)
            &&& all.cache_read == 0 || exists|i: int|
                0 <= i < es.len() && (#[trigger] es[i] matches StreamModel::Usage(u)
                    && u.cache_read == all.cache_read)
            &&& all.cache_write == 0 || exists|i: int|
                0 <= i < es.len() && (#[trigger] es[i] matches StreamModel::Usage(u)
                    && u.cache_write == all.cache_write)
        }),
    decreases es.len(),
{
    if es.len() > 0 {
        let init = es.drop_last();
        law_largest_usage_stands(init);
        let was = AssemblyModel::of(init).usage;
        let all = AssemblyModel::of(es).usage;
        assert(es[es.len() - 1] == es.last());
        assert forall|i: int| 0 <= i < es.len() implies (#[trigger] es[i] matches StreamModel::Usage(
            u,
        ) ==> u.input <= all.input && u.output <= all.output && u.cache_read <= all.cache_read
            && u.cache_write <= all.cache_write) by {
            if i < init.len() {
                assert(init[i] == es[i]);
            }
        }
        if all.input != 0 && all.input == was.input {
            let i = choose|i: int|
                0 <= i < init.len() && (#[trigger] init[i] matches StreamModel::Usage(u) && u.input
                    == was.input);
            assert(es[i] == init[i]);
        }
        if all.output != 0 && all.output == was.output {
            let i = choose|i: int|
                0 <= i < init.len() && (#[trigger] init[i] matches StreamModel::Usage(u)
                    && u.output == was.output);
            assert(es[i] == init[i]);
        }
        if all.cache_read != 0 && all.cache_read == was.cache_read {
            let i = choose|i: int|
                0 <= i < init.len() && (#[trigger] init[i] matches StreamModel::Usage(u)
                    && u.cache_read == was.cache_read);
            assert(es[i] == init[i]);
        }
        if all.cache_write != 0 && all.cache_write == was.cache_write {
            let i = choose|i: int|
                0 <= i < init.len() && (#[trigger] init[i] matches StreamModel::Usage(u)
                    && u.cache_write == was.cache_write);
            assert(es[i] == init[i]);
        }
    }
}

/// The reason that came last is why the stream ended.
pub proof fn law_last_reason_stands(
    es: Seq<StreamModel>,
    reason: StopReason,
    rest: Seq<StreamModel>,
)
    requires
        forall|i: int| 0 <= i < rest.len() ==> !(#[trigger] rest[i] is Done),
    ensures
        AssemblyModel::of(es.push(StreamModel::Done(reason)) + rest).stop == reason,
    decreases rest.len(),
{
    let done = es.push(StreamModel::Done(reason));
    if rest.len() > 0 {
        law_last_reason_stands(es, reason, rest.drop_last());
        assert((done + rest).drop_last() =~= done + rest.drop_last());
    } else {
        assert(done + rest =~= done);
    }
}

/// What of a streamed event is shown at once.
pub open spec fn shown_at_once(ev: StreamModel) -> Option<NoticeModel> {
    match ev {
        StreamModel::TextDelta(t) => Some(NoticeModel::TextDelta(t)),
        StreamModel::ThinkingDelta(t) => Some(NoticeModel::ThinkingDelta(t)),
        _ => None,
    }
}

/// The input of a call: its arguments where they are JSON, else nothing at all,
/// so that the tool itself reports what is missing.
pub open spec fn call_input(args: Seq<char>) -> JsonModel {
    match json::json_parsed(text::trim(args)) {
        Some(j) => j,
        None => JsonModel::object(),
    }
}

/// The inputs of all calls.
pub open spec fn call_inputs(calls: Seq<PendingModel>) -> Seq<JsonModel> {
    Seq::new(calls.len(), |i: int| call_input(calls[i].args))
}

/// What was said ahead of the tool calls.
pub open spec fn spoken_blocks(a: AssemblyModel) -> Seq<ContentModel> {
    (if a.thinking.len() > 0 {
        seq![ContentModel::Thinking { text: a.thinking, signature: None }]
    } else {
        Seq::empty()
    }) + (if a.text.len() > 0 {
        seq![ContentModel::Text { text: a.text }]
    } else {
        Seq::empty()
    })
}

/// The tool calls with their inputs.
pub open spec fn call_blocks(
    calls: Seq<PendingModel>,
    inputs: Seq<JsonModel>,
) -> Seq<ContentModel> {
    Seq::new(
        calls.len(),
        |i: int|
            ContentModel::ToolCall { id: calls[i].id, name: calls[i].name, input: inputs[i] },
    )
}

/// The answer that was put together. One that calls tools ends for that reason,
/// whatever the server said.
pub open spec fn assembled(
    a: AssemblyModel,
    inputs: Seq<JsonModel>,
    aborted: bool,
) -> MessageModel {
    MessageModel::Assistant {
        content: spoken_blocks(a) + call_blocks(a.calls, inputs),
        usage: a.usage,
        stop_reason: if a.calls.len() > 0 {
            StopReason::ToolUse
        } else if aborted {
            StopReason::Aborted
        } else {
            a.stop
        },
        error: None,
    }
}

fn larger(a: u32, b: u32) -> (r: u32)
    ensures
        r == max32(a, b),
{
    if a >= b {
        a
    } else {
        b
    }
}

impl Assembly {
    pub open spec fn view(&self) -> AssemblyModel {
        AssemblyModel {
            text: self.text@,
            thinking: self.thinking@,
            calls: pending(self.calls@),
            usage: self.usage,
            stop: self.stop,
        }
    }

    pub fn new() -> (r: Assembly)
        ensures
            r@ == AssemblyModel::empty(),
    {
        let r = Assembly {
            text: String::new(),
            thinking: String::new(),
            calls: Vec::new(),
            usage: Usage::default(),
            stop: StopReason::Stop,
        };
        assert(r@ =~= AssemblyModel::empty());
        r
    }

    /// Takes one event in, and says what of it is shown at once.
    pub fn feed(&mut self, ev: &StreamEvent) -> (r: Option<AgentEvent>)
        ensures
            final(self)@ == old(self)@.with(ev@),
            match r {
                Some(n) => shown_at_once(ev@) == Some(n@),
                None => shown_at_once(ev@) is None,
            },
    {
        let ghost before = self@;
        match ev {
            StreamEvent::TextDelta(t) => {
                self.text.push_str(t.as_str());
                Some(AgentEvent::TextDelta(t.clone()))
            },
            StreamEvent::ThinkingDelta(t) => {
                self.thinking.push_str(t.as_str());
                Some(AgentEvent::ThinkingDelta(t.clone()))
            },
            StreamEvent::ToolCallStart { id, name } => {
                let call = PendingCall { id: id.clone(), name: name.clone(), args: String::new() };
                self.calls.push(call);
                assert(self@ =~= before.with(ev@)) by {
                    assert(pending(self.calls@) =~= before.calls.push(
                        PendingModel { id: id@, name: name@, args: Seq::empty() },
                    )) by {
                        assert(call@.args =~= Seq::empty());
                    }
                }
                None
            },
            StreamEvent::ToolCallDelta(t) => {
                let last = self.calls.pop();
                match last {
                    Some(call) => {
                        let ghost was = call@;
                        let mut call = call;
                        call.args.push_str(t.as_str());
                        self.calls.push(call);
                        assert(pending(self.calls@) =~= before.calls.drop_last().push(
                            PendingModel { args: was.args + t@, ..was },
                        ));
                    },
                    None => {
                        assert(pending(self.calls@) =~= before.calls);
                    },
                }
                None
            },
            StreamEvent::ToolCallEnd => None,
            StreamEvent::Usage(u) => {
                self.usage =
                Usage {
                    input: larger(self.usage.input, u.input),
                    output: larger(self.usage.output, u.output),
                    cache_read: larger(self.usage.cache_read, u.cache_read),
                    cache_write: larger(self.usage.cache_write, u.cache_write),
                };
                None
            },
            StreamEvent::Done(r) => {
                self.stop = *r;
                None
            },
        }
    }

    /// The answer, once it is complete or was `aborted`.
    pub fn finish(self, aborted: bool) -> (r: Message)
        ensures
            r@ == assembled(self@, call_inputs(self@.calls), aborted),
    {
        let mut inputs: Vec<Json> = Vec::new();
        let mut i: usize = 0;
        while i < self.calls.len()
            invariant
                i <= self.calls@.len(),
                inputs@.len() == i,
                forall|j: int|
                    0 <= j < i ==> (#[trigger] inputs@[j])@ == call_input(self.calls@[j].args@),
            decreases self.calls@.len() - i,
        {
            let args = text::trimmed(self.calls[i].args.as_str());
            let input = match json::parse(args.as_str()) {
                Some(j) => j,
                None => Json::Object(JsonObject::new()),
            };
            inputs.push(input);
            i += 1;
        }
        assert(json::models(inputs@) =~= call_inputs(self@.calls));
        self.assemble(inputs, aborted)
    }

    /// The answer, given the input of each of its calls.
    pub fn assemble(self, inputs: Vec<Json>, aborted: bool) -> (r: Message)
        requires
            inputs@.len() == self.calls@.len(),
        ensures
            r@ == assembled(self@, json::models(inputs@), aborted),
    {
        let ghost a = self@;
        let ghost sent = json::models(inputs@);
        let mut content: Vec<ContentBlock> = Vec::new();
        if !self.thinking.as_str().is_empty() {
            content.push(ContentBlock::Thinking { text: self.thinking, signature: None });
        }
        if !self.text.as_str().is_empty() {
            content.push(ContentBlock::text(self.text));
        }
        assert(types::contents(content@) =~= spoken_blocks(a));
        let calls = self.calls;
        let ghost spoken = spoken_blocks(a);
        let mut i: usize = 0;
        assert(spoken + call_blocks(a.calls.take(0), sent.take(0)) =~= spoken);
        while i < calls.len()
            invariant
                i <= calls@.len(),
                calls@.len() == inputs@.len(),
                a.calls == pending(calls@),
                sent == json::models(inputs@),
                types::contents(content@) == spoken + call_blocks(
                    a.calls.take(i as int),
                    sent.take(i as int),
                ),
            decreases calls@.len() - i,
        {
            let ghost before = content@;
            let block = ContentBlock::ToolCall {
                id: calls[i].id.clone(),
                name: calls[i].name.clone(),
                input: inputs[i].clone(),
            };
            let ghost b = block@;
            content.push(block);
            assert(types::contents(content@) =~= types::contents(before).push(b));
            assert(call_blocks(a.calls.take(i + 1), sent.take(i + 1)) =~= call_blocks(
                a.calls.take(i as int),
                sent.take(i as int),
            ).push(b));
            i += 1;
        }
        assert(a.calls.take(i as int) =~= a.calls);
        assert(sent.take(i as int) =~= sent);
        let stop_reason = if calls.len() > 0 {
            StopReason::ToolUse
        } else if aborted {
            StopReason::Aborted
        } else {
            self.stop
        };
        Message::Assistant { content, usage: self.usage, stop_reason, error: None }
    }
}

/// The tool calls among the blocks of an answer.
pub open spec fn calls_among(bs: Seq<ContentModel>) -> Seq<ContentModel>
    decreases bs.len(),
{
    if bs.len() == 0 {
        Seq::empty()
    } else if bs.last() is ToolCall {
        calls_among(bs.drop_last()).push(bs.last())
    } else {
        calls_among(bs.drop_last())
    }
}

/// Where a turn stands.
#[derive(Debug, Clone, Copy, PartialEq, Eq, Structural)]
pub enum Phase {
    /// Nothing was done yet.
    Start,
    /// The user's message is being written.
    Input,
    /// Another model call is about to be made, unless the turn was cancelled.
    Check,
    /// What was typed meanwhile is being taken.
    Queue,
    /// What was typed meanwhile is being written.
    Steering,
    /// The context is being compacted, if need be.
    Compaction,
    /// The model is answering.
    Model,
    /// The failure of the model call is being written.
    Failed,
    /// The answer is being written.
    Answered,
    /// The tools are running.
    Tools,
    /// The turn is over.
    Over,
}

/// What the caller reports.
pub enum Report {
    Begin,
    /// Whether everything that was to be appended was written.
    Written(bool),
    Cancelled(bool),
    /// What was typed meanwhile and comes next, if anything is left.
    Queued(Option<String>),
    /// Whether the turn can go on, and whether the conversation was compacted.
    Compacted { ok: bool, changed: bool },
    Answer(Message),
    /// Why the model call failed.
    Failure(String),
    /// Whether all tool results were written.
    ToolsDone(bool),
}

/// What a [`Report`] holds.
#[allow(inconsistent_fields)]
pub enum ReportModel {
    Begin,
    Written(bool),
    Cancelled(bool),
    Queued(Option<Seq<char>>),
    Compacted { ok: bool, changed: bool },
    Answer(MessageModel),
    Failure(Seq<char>),
    ToolsDone(bool),
}

impl Report {
    pub open spec fn view(&self) -> ReportModel {
        match self {
            Report::Begin => ReportModel::Begin,
            Report::Written(ok) => ReportModel::Written(*ok),
            Report::Cancelled(b) => ReportModel::Cancelled(*b),
            Report::Queued(t) => ReportModel::Queued(text::opt(*t)),
            Report::Compacted { ok, changed } => ReportModel::Compacted {
                ok: *ok,
                changed: *changed,
            },
            Report::Answer(m) => ReportModel::Answer(m@),
            Report::Failure(t) => ReportModel::Failure(t@),
            Report::ToolsDone(ok) => ReportModel::ToolsDone(*ok),
        }
    }
}

/// What the caller is to do next.
pub enum Action {
    /// Append these messages, one after the other.
    Append(Vec<Message>),
    /// Find out whether the turn was cancelled.
    AskCancelled,
    /// Take the next message that was typed meanwhile. What is left of them stays
    /// queued until the one before is written.
    TakeQueue,
    /// Compact the context, if need be.
    Compact,
    CallModel,
    /// Run these tool calls in order and append their results.
    RunTools(Vec<ContentBlock>),
    /// Return this text, or the failure of what was written last.
    Finish(Option<String>),
}

/// What an [`Action`] holds.
#[allow(inconsistent_fields)]
pub enum ActionModel {
    Append(Seq<MessageModel>),
    AskCancelled,
    TakeQueue,
    Compact,
    CallModel,
    RunTools(Seq<ContentModel>),
    Finish(Option<Seq<char>>),
}

impl Action {
    pub open spec fn view(&self) -> ActionModel {
        match self {
            Action::Append(ms) => ActionModel::Append(types::messages(ms@)),
            Action::AskCancelled => ActionModel::AskCancelled,
            Action::TakeQueue => ActionModel::TakeQueue,
            Action::Compact => ActionModel::Compact,
            Action::CallModel => ActionModel::CallModel,
            Action::RunTools(cs) => ActionModel::RunTools(types::contents(cs@)),
            Action::Finish(t) => ActionModel::Finish(text::opt(*t)),
        }
    }
}

/// One turn.
pub struct Turn {
    phase: Phase,
    input: String,
    max_iterations: u32,
    iterations: u32,
    /// What the assistant said since the last tool ran.
    said: String,
    /// The provider's last token counts.
    usage: Usage,
    /// The tool calls of the answer that is being written.
    calls: Vec<ContentBlock>,
    /// The answer that is being written is the last one.
    last: bool,
    /// Why the model call failed.
    failure: String,
}

/// What a [`Turn`] holds.
pub struct TurnModel {
    pub phase: Phase,
    pub input: Seq<char>,
    pub max_iterations: u32,
    pub iterations: u32,
    pub said: Seq<char>,
    pub usage: Usage,
    pub calls: Seq<ContentModel>,
    pub last: bool,
    pub failure: Seq<char>,
}

/// What comes of one report: the turn after it, what to do next, and what is shown.
pub struct StepModel {
    pub turn: TurnModel,
    pub action: ActionModel,
    pub shown: Seq<NoticeModel>,
}

/// What is said where a turn made too many model calls.
pub open spec fn too_many(max_iterations: u32) -> Seq<char> {
    "stopped after "@ + text::decimal(max_iterations as nat) + " model calls in one turn"@
}

/// The message that records a failed model call.
pub open spec fn failure_message(reason: Seq<char>) -> MessageModel {
    MessageModel::Assistant {
        content: seq![ContentModel::Text { text: "(error: "@ + reason + ")"@ }],
        usage: Usage::zero(),
        stop_reason: StopReason::Error,
        error: Some(reason),
    }
}

impl TurnModel {
    /// The turn as it goes on in `phase`.
    pub open spec fn goes_to(
        self,
        phase: Phase,
        action: ActionModel,
        shown: Seq<NoticeModel>,
    ) -> StepModel {
        StepModel { turn: TurnModel { phase, ..self }, action, shown }
    }

    /// The end of the turn. Every surface waits for `TurnEnd`, so it comes last
    /// however the turn ends.
    pub open spec fn ends(self, reply: Option<Seq<char>>, shown: Seq<NoticeModel>) -> StepModel {
        self.goes_to(
            Phase::Over,
            ActionModel::Finish(reply),
            shown.push(NoticeModel::TurnEnd { usage: self.usage }),
        )
    }

    /// The answer `m`, about to be written. Some servers report a normal end while
    /// they call tools, so the calls decide, except after an error or an abort.
    pub open spec fn answered(self, m: MessageModel) -> TurnModel {
        match m {
            MessageModel::Assistant { content, usage, stop_reason, .. } => TurnModel {
                said: self.said + llm::openai::joined_text(content),
                usage,
                calls: calls_among(content),
                last: stop_reason is Error || stop_reason is Aborted || calls_among(
                    content,
                ).len() == 0,
                ..self
            },
            _ => TurnModel { calls: Seq::empty(), last: true, ..self },
        }
    }

    /// What comes of a report. One that does not fit ends the turn.
    pub open spec fn step(self, report: ReportModel) -> StepModel {
        match (self.phase, report) {
            (Phase::Start, ReportModel::Begin) => self.goes_to(
                Phase::Input,
                ActionModel::Append(seq![MessageModel::User { content: self.input }]),
                Seq::empty(),
            ),
            (Phase::Input, ReportModel::Written(true)) => self.goes_to(
                Phase::Check,
                ActionModel::AskCancelled,
                seq![NoticeModel::TurnStart],
            ),
            (Phase::Check, ReportModel::Cancelled(true)) => self.ends(
                Some(self.said),
                seq![NoticeModel::Error("cancelled"@)],
            ),
            (Phase::Check, ReportModel::Cancelled(false)) => if self.iterations
                >= self.max_iterations {
                let message = too_many(self.max_iterations);
                self.ends(
                    Some(
                        if self.said.len() == 0 {
                            message
                        } else {
                            self.said
                        },
                    ),
                    seq![NoticeModel::Error(message)],
                )
            } else {
                TurnModel { iterations: (self.iterations + 1) as u32, ..self }.goes_to(
                    Phase::Queue,
                    ActionModel::TakeQueue,
                    Seq::empty(),
                )
            },
            (Phase::Queue, ReportModel::Queued(Some(typed))) => self.goes_to(
                Phase::Steering,
                ActionModel::Append(seq![MessageModel::User { content: typed }]),
                Seq::empty(),
            ),
            (Phase::Steering, ReportModel::Written(true)) => self.goes_to(
                Phase::Queue,
                ActionModel::TakeQueue,
                Seq::empty(),
            ),
            (Phase::Queue, ReportModel::Queued(None)) => self.goes_to(
                Phase::Compaction,
                ActionModel::Compact,
                Seq::empty(),
            ),
            (Phase::Compaction, ReportModel::Compacted { ok: true, changed }) => TurnModel {
                usage: if changed {
                    Usage::zero()
                } else {
                    self.usage
                },
                ..self
            }.goes_to(Phase::Model, ActionModel::CallModel, Seq::empty()),
            (Phase::Model, ReportModel::Failure(reason)) => TurnModel {
                failure: reason,
                ..self
            }.goes_to(
                Phase::Failed,
                ActionModel::Append(seq![failure_message(reason)]),
                seq![NoticeModel::Error(reason)],
            ),
            (Phase::Failed, ReportModel::Written(true)) => self.ends(
                Some(self.failure),
                Seq::empty(),
            ),
            (Phase::Model, ReportModel::Answer(m)) => self.answered(m).goes_to(
                Phase::Answered,
                ActionModel::Append(seq![m]),
                Seq::empty(),
            ),
            (Phase::Answered, ReportModel::Written(true)) => if self.last {
                self.ends(Some(self.said), seq![NoticeModel::Reply(self.said)])
            } else {
                self.goes_to(Phase::Tools, ActionModel::RunTools(self.calls), Seq::empty())
            },
            (Phase::Tools, ReportModel::ToolsDone(true)) => TurnModel {
                said: Seq::empty(),
                ..self
            }.goes_to(Phase::Check, ActionModel::AskCancelled, Seq::empty()),
            (Phase::Over, _) => self.goes_to(
                Phase::Over,
                ActionModel::Finish(None),
                Seq::empty(),
            ),
            _ => self.ends(None, Seq::empty()),
        }
    }
}

/// What one report comes to.
pub struct Step {
    pub action: Action,
    pub shown: Vec<AgentEvent>,
}

impl Turn {
    pub closed spec fn view(&self) -> TurnModel {
        TurnModel {
            phase: self.phase,
            input: self.input@,
            max_iterations: self.max_iterations,
            iterations: self.iterations,
            said: self.said@,
            usage: self.usage,
            calls: types::contents(self.calls@),
            last: self.last,
            failure: self.failure@,
        }
    }

    /// A turn that answers `input`, with the provider's last token counts.
    pub fn new(input: String, max_iterations: u32, usage: Usage) -> (r: Turn)
        ensures
            r@.phase == Phase::Start,
            r@.input == input@,
            r@.max_iterations == max_iterations,
            r@.iterations == 0,
            r@.said == Seq::<char>::empty(),
            r@.usage == usage,
            r@.calls == Seq::<ContentModel>::empty(),
            !r@.last,
            r@.failure == Seq::<char>::empty(),
    {
        Turn {
            phase: Phase::Start,
            input,
            max_iterations,
            iterations: 0,
            said: String::new(),
            usage,
            calls: Vec::new(),
            last: false,
            failure: String::new(),
        }
    }

    /// The token counts that are to be kept once the turn is over.
    pub fn usage(&self) -> (r: Usage)
        ensures
            r == self@.usage,
    {
        self.usage
    }

    /// What comes of a report.
    pub fn step(&mut self, report: Report) -> (r: Step)
        ensures
            final(self)@ == old(self)@.step(report@).turn,
            r.action@ == old(self)@.step(report@).action,
            notices(r.shown@) == old(self)@.step(report@).shown,
    {
        match (self.phase, report) {
            (Phase::Start, Report::Begin) => {
                let ms: Vec<Message> = vec![Message::user(self.input.clone())];
                assert(types::messages(ms@) =~= seq![MessageModel::User { content: self.input@ }]);
                self.go(Phase::Input, Action::Append(ms))
            },
            (Phase::Input, Report::Written(true)) => {
                self.phase = Phase::Check;
                let shown: Vec<AgentEvent> = vec![AgentEvent::TurnStart];
                assert(notices(shown@) =~= seq![NoticeModel::TurnStart]);
                Step { action: Action::AskCancelled, shown }
            },
            (Phase::Check, Report::Cancelled(true)) => {
                let shown: Vec<AgentEvent> = vec![AgentEvent::Error("cancelled".to_owned())];
                assert(notices(shown@) =~= seq![NoticeModel::Error("cancelled"@)]);
                let reply = Some(self.said.clone());
                self.end(reply, shown)
            },
            (Phase::Check, Report::Cancelled(false)) => if self.iterations
                >= self.max_iterations {
                let mut message = "stopped after ".to_owned();
                let n = text::decimal_of(self.max_iterations as u64);
                message.push_str(n.as_str());
                message.push_str(" model calls in one turn");
                let reply = if self.said.as_str().is_empty() {
                    message.clone()
                } else {
                    self.said.clone()
                };
                let shown: Vec<AgentEvent> = vec![AgentEvent::Error(message)];
                assert(notices(shown@) =~= seq![
                    NoticeModel::Error(too_many(self.max_iterations)),
                ]);
                self.end(Some(reply), shown)
            } else {
                self.iterations = self.iterations + 1;
                self.go(Phase::Queue, Action::TakeQueue)
            },
            (Phase::Queue, Report::Queued(Some(typed))) => {
                let ghost t = typed@;
                let ms: Vec<Message> = vec![Message::user(typed)];
                assert(types::messages(ms@) =~= seq![MessageModel::User { content: t }]);
                self.go(Phase::Steering, Action::Append(ms))
            },
            (Phase::Steering, Report::Written(true)) => self.go(Phase::Queue, Action::TakeQueue),
            (Phase::Queue, Report::Queued(None)) => self.go(Phase::Compaction, Action::Compact),
            (Phase::Compaction, Report::Compacted { ok: true, changed }) => {
                if changed {
                    self.usage = Usage::default();
                }
                self.go(Phase::Model, Action::CallModel)
            },
            (Phase::Model, Report::Failure(reason)) => {
                let mut said = "(error: ".to_owned();
                said.push_str(reason.as_str());
                said.push_str(")");
                let content: Vec<ContentBlock> = vec![ContentBlock::text(said)];
                assert(types::contents(content@) =~= seq![
                    ContentModel::Text { text: "(error: "@ + reason@ + ")"@ },
                ]);
                let m = Message::Assistant {
                    content,
                    usage: Usage::default(),
                    stop_reason: StopReason::Error,
                    error: Some(reason.clone()),
                };
                let ms: Vec<Message> = vec![m];
                assert(types::messages(ms@) =~= seq![failure_message(reason@)]);
                let shown: Vec<AgentEvent> = vec![AgentEvent::Error(reason.clone())];
                assert(notices(shown@) =~= seq![NoticeModel::Error(reason@)]);
                self.failure = reason;
                self.phase = Phase::Failed;
                Step { action: Action::Append(ms), shown }
            },
            (Phase::Failed, Report::Written(true)) => {
                let shown: Vec<AgentEvent> = Vec::new();
                assert(notices(shown@) =~= Seq::empty());
                let reply = Some(self.failure.clone());
                self.end(reply, shown)
            },
            (Phase::Model, Report::Answer(m)) => {
                self.take_answer(&m);
                let ghost a = m@;
                let ms: Vec<Message> = vec![m];
                assert(types::messages(ms@) =~= seq![a]);
                self.go(Phase::Answered, Action::Append(ms))
            },
            (Phase::Answered, Report::Written(true)) => if self.last {
                let shown: Vec<AgentEvent> = vec![AgentEvent::Reply(self.said.clone())];
                assert(notices(shown@) =~= seq![NoticeModel::Reply(self.said@)]);
                let reply = Some(self.said.clone());
                self.end(reply, shown)
            } else {
                let calls = types::clone_contents(&self.calls);
                self.go(Phase::Tools, Action::RunTools(calls))
            },
            (Phase::Tools, Report::ToolsDone(true)) => {
                self.said = String::new();
                assert(self@.said =~= Seq::<char>::empty());
                self.go(Phase::Check, Action::AskCancelled)
            },
            (Phase::Over, _) => self.go(Phase::Over, Action::Finish(None)),
            _ => {
                let shown: Vec<AgentEvent> = Vec::new();
                assert(notices(shown@) =~= Seq::empty());
                self.end(None, shown)
            },
        }
    }

    fn go(&mut self, phase: Phase, action: Action) -> (r: Step)
        ensures
            final(self)@ == old(self)@.goes_to(phase, action@, Seq::empty()).turn,
            r.action@ == action@,
            notices(r.shown@) == Seq::<NoticeModel>::empty(),
    {
        self.phase = phase;
        let shown: Vec<AgentEvent> = Vec::new();
        assert(notices(shown@) =~= Seq::<NoticeModel>::empty());
        Step { action, shown }
    }

    fn end(&mut self, reply: Option<String>, shown: Vec<AgentEvent>) -> (r: Step)
        ensures
            final(self)@ == old(self)@.ends(text::opt(reply), notices(shown@)).turn,
            r.action@ == old(self)@.ends(text::opt(reply), notices(shown@)).action,
            notices(r.shown@) == old(self)@.ends(text::opt(reply), notices(shown@)).shown,
    {
        let ghost before = shown@;
        let mut shown = shown;
        shown.push(AgentEvent::TurnEnd { usage: self.usage });
        assert(notices(shown@) =~= notices(before).push(
            NoticeModel::TurnEnd { usage: self.usage },
        ));
        self.phase = Phase::Over;
        Step { action: Action::Finish(reply), shown }
    }

    fn take_answer(&mut self, m: &Message)
        ensures
            final(self)@ == old(self)@.answered(m@),
    {
        match m {
            Message::Assistant { content, usage, stop_reason, .. } => {
                let ghost all = types::contents(content@);
                let ghost said = self.said@;
                let mut calls: Vec<ContentBlock> = Vec::new();
                let mut text = String::new();
                let mut i: usize = 0;
                assert(all.take(0) =~= Seq::empty());
                assert(types::contents(calls@) =~= Seq::empty());
                while i < content.len()
                    invariant
                        i <= content@.len(),
                        all == types::contents(content@),
                        types::contents(calls@) == calls_among(all.take(i as int)),
                        text@ == llm::openai::joined_text(all.take(i as int)),
                    decreases content@.len() - i,
                {
                    assert(all.take(i + 1).drop_last() =~= all.take(i as int));
                    assert(all.take(i + 1).last() == content@[i as int]@);
                    let ghost before = calls@;
                    match &content[i] {
                        ContentBlock::Text { text: t } => text.push_str(t.as_str()),
                        ContentBlock::Thinking { .. } => {},
                        ContentBlock::ToolCall { .. } => {
                            calls.push(content[i].clone());
                            assert(types::contents(calls@) =~= types::contents(before).push(
                                content@[i as int]@,
                            ));
                        },
                    }
                    i += 1;
                }
                assert(all.take(i as int) =~= all);
                self.said.push_str(text.as_str());
                self.usage = *usage;
                self.last =
                match stop_reason {
                    StopReason::Error => true,
                    StopReason::Aborted => true,
                    _ => calls.len() == 0,
                };
                self.calls = calls;
            },
            _ => {
                self.calls = Vec::new();
                self.last = true;
                assert(types::contents(self.calls@) =~= Seq::empty());
            },
        }
    }
}

/// However a turn ends, it ends with `TurnEnd`, exactly once: the step that
/// finishes it shows `TurnEnd` last, and no other step shows it.
pub proof fn law_every_turn_ends_with_turn_end(turn: TurnModel, report: ReportModel)
    requires
        turn.phase != Phase::Over,
    ensures
        ({
            let s = turn.step(report);
            &&& s.action is Finish == (s.turn.phase == Phase::Over)
            &&& s.action is Finish ==> s.shown.len() > 0 && s.shown.last() is TurnEnd
            &&& forall|i: int|
                0 <= i < s.shown.len() && #[trigger] s.shown[i] is TurnEnd ==> s.action is Finish
                    && i == s.shown.len() - 1
        }),
{
}

/// What is over stays over, and shows nothing more.
pub proof fn law_over_is_over(turn: TurnModel, report: ReportModel)
    requires
        turn.phase == Phase::Over,
    ensures
        turn.step(report).turn.phase == Phase::Over,
        turn.step(report).action is Finish,
        turn.step(report).shown.len() == 0,
{
}

proof fn lemma_all_calls(bs: Seq<ContentModel>)
    requires
        forall|i: int| 0 <= i < bs.len() ==> #[trigger] bs[i] is ToolCall,
    ensures
        bs.filter(|b: ContentModel| b is ToolCall) == bs,
    decreases bs.len(),
{
    reveal(Seq::filter);
    if bs.len() > 0 {
        lemma_all_calls(bs.drop_last());
        assert(bs.drop_last().push(bs.last()) =~= bs);
    }
}

proof fn lemma_spoken_is_kept(a: AssemblyModel, inputs: Seq<JsonModel>)
    ensures
        (spoken_blocks(a) + call_blocks(a.calls, inputs)).flat_map(
            |b: ContentModel|
                match b {
                    ContentModel::Text { text } => text,
                    _ => Seq::<char>::empty(),
                },
        ) == a.text,
        (spoken_blocks(a) + call_blocks(a.calls, inputs)).flat_map(
            |b: ContentModel|
                match b {
                    ContentModel::Thinking { text, .. } => text,
                    _ => Seq::<char>::empty(),
                },
        ) == a.thinking,
{
    let spoken = spoken_blocks(a);
    let calls = call_blocks(a.calls, inputs);
    let ft = |b: ContentModel|
        match b {
            ContentModel::Text { text } => text,
            _ => Seq::<char>::empty(),
        };
    let fk = |b: ContentModel|
        match b {
            ContentModel::Thinking { text, .. } => text,
            _ => Seq::<char>::empty(),
        };
    let none = Seq::<char>::empty();
    text::lemma_flat_map_add(spoken, calls, ft);
    text::lemma_flat_map_add(spoken, calls, fk);
    lemma_no_text(calls);
    let ks: Seq<ContentModel> = if a.thinking.len() > 0 {
        seq![ContentModel::Thinking { text: a.thinking, signature: None }]
    } else {
        Seq::empty()
    };
    let ts: Seq<ContentModel> = if a.text.len() > 0 {
        seq![ContentModel::Text { text: a.text }]
    } else {
        Seq::empty()
    };
    text::lemma_flat_map_add(ks, ts, ft);
    text::lemma_flat_map_add(ks, ts, fk);
    lemma_at_most_one(ks, ft);
    lemma_at_most_one(ks, fk);
    lemma_at_most_one(ts, ft);
    lemma_at_most_one(ts, fk);
    assert(spoken == ks + ts);
    assert(ks.flat_map(ft) =~= none);
    assert(ts.flat_map(fk) =~= none);
    assert(ts.flat_map(ft) =~= a.text);
    assert(ks.flat_map(fk) =~= a.thinking);
    assert(none + a.text + none =~= a.text);
    assert(a.thinking + none + none =~= a.thinking);
}

proof fn lemma_at_most_one(bs: Seq<ContentModel>, f: spec_fn(ContentModel) -> Seq<char>)
    requires
        bs.len() <= 1,
    ensures
        bs.flat_map(f) == (if bs.len() == 0 {
            Seq::<char>::empty()
        } else {
            f(bs[0])
        }),
{
    if bs.len() == 0 {
        assert(bs.map_values(f) =~= Seq::empty());
    } else {
        let none = Seq::<ContentModel>::empty();
        assert(bs.drop_last() =~= none);
        assert(none.map_values(f) =~= Seq::empty());
        text::lemma_flat_map_last(bs, f);
        assert(bs.flat_map(f) =~= f(bs[0]));
    }
}

proof fn lemma_calls_are_kept(a: AssemblyModel, inputs: Seq<JsonModel>)
    ensures
        (spoken_blocks(a) + call_blocks(a.calls, inputs)).filter(|b: ContentModel| b is ToolCall)
            == call_blocks(a.calls, inputs),
{
    let spoken = spoken_blocks(a);
    let calls = call_blocks(a.calls, inputs);
    let p = |b: ContentModel| b is ToolCall;
    Seq::filter_distributes_over_add(spoken, calls, p);
    lemma_all_calls(calls);
    assert(spoken.filter(p).len() == 0) by {
        if spoken.filter(p).len() > 0 {
            spoken.lemma_filter_pred(p, 0);
            assert(spoken.filter(p).contains(spoken.filter(p)[0]));
            spoken.lemma_filter_contains_rev(p, spoken.filter(p)[0]);
        }
    }
    assert((spoken + calls).filter(p) =~= calls);
}

/// The answer that is put together holds the text and the reasoning that were streamed. It
/// ends for tool use where it calls a tool; else it was aborted, or ends for the reason
/// that was streamed.
pub proof fn law_answer_is_put_together(a: AssemblyModel, inputs: Seq<JsonModel>, aborted: bool)
    ensures
        ({
            let m = assembled(a, inputs, aborted);
            let content = m->Assistant_content;
            &&& m is Assistant
            &&& content.flat_map(
                |b: ContentModel|
                    match b {
                        ContentModel::Text { text } => text,
                        _ => Seq::<char>::empty(),
                    },
            ) == a.text
            &&& content.flat_map(
                |b: ContentModel|
                    match b {
                        ContentModel::Thinking { text, .. } => text,
                        _ => Seq::<char>::empty(),
                    },
            ) == a.thinking
            &&& m->Assistant_usage == a.usage
            &&& m->Assistant_error is None
            &&& m->Assistant_stop_reason == (if a.calls.len() > 0 {
                StopReason::ToolUse
            } else if aborted {
                StopReason::Aborted
            } else {
                a.stop
            })
        }),
{
    lemma_spoken_is_kept(a, inputs);
}

/// The answer that is put together holds every call with its input, in order, and no other.
pub proof fn law_answer_holds_every_call(
    a: AssemblyModel,
    inputs: Seq<JsonModel>,
    aborted: bool,
    i: int,
)
    requires
        inputs.len() == a.calls.len(),
        0 <= i < a.calls.len(),
    ensures
        ({
            let calls = assembled(a, inputs, aborted)->Assistant_content.filter(
                |b: ContentModel| b is ToolCall,
            );
            &&& calls.len() == a.calls.len()
            &&& calls[i] == (ContentModel::ToolCall {
                id: a.calls[i].id,
                name: a.calls[i].name,
                input: inputs[i],
            })
        }),
{
    lemma_calls_are_kept(a, inputs);
}

/// What was said stands before what is called, and what was thought before either.
pub proof fn law_thought_said_called(a: AssemblyModel, inputs: Seq<JsonModel>, aborted: bool)
    ensures
        ({
            let content = assembled(a, inputs, aborted)->Assistant_content;
            &&& forall|i: int|
                0 <= i < content.len() ==> (#[trigger] content[i] is ToolCall <==> i
                    >= content.len() - a.calls.len())
            &&& a.thinking.len() > 0 ==> content[0] is Thinking
            &&& a.text.len() > 0 && a.thinking.len() > 0 ==> content[1] is Text
            &&& a.text.len() > 0 && a.thinking.len() == 0 ==> content[0] is Text
        }),
{
}

proof fn lemma_no_text(bs: Seq<ContentModel>)
    requires
        forall|i: int| 0 <= i < bs.len() ==> #[trigger] bs[i] is ToolCall,
    ensures
        bs.flat_map(
            |b: ContentModel|
                match b {
                    ContentModel::Text { text } => text,
                    _ => Seq::<char>::empty(),
                },
        ) == Seq::<char>::empty(),
        bs.flat_map(
            |b: ContentModel|
                match b {
                    ContentModel::Thinking { text, .. } => text,
                    _ => Seq::<char>::empty(),
                },
        ) == Seq::<char>::empty(),
    decreases bs.len(),
{
    let ft = |b: ContentModel|
        match b {
            ContentModel::Text { text } => text,
            _ => Seq::<char>::empty(),
        };
    let fk = |b: ContentModel|
        match b {
            ContentModel::Thinking { text, .. } => text,
            _ => Seq::<char>::empty(),
        };
    if bs.len() > 0 {
        lemma_no_text(bs.drop_last());
        text::lemma_flat_map_last(bs, ft);
        text::lemma_flat_map_last(bs, fk);
        assert(bs.flat_map(ft) =~= Seq::empty());
        assert(bs.flat_map(fk) =~= Seq::empty());
    } else {
        assert(bs.map_values(ft) =~= Seq::empty());
        assert(bs.map_values(fk) =~= Seq::empty());
    }
}

/// The calls of an answer are its tool calls, in order.
pub proof fn law_calls_among(bs: Seq<ContentModel>)
    ensures
        calls_among(bs) == bs.filter(|b: ContentModel| b is ToolCall),
    decreases bs.len(),
{
    reveal(Seq::filter);
    if bs.len() > 0 {
        law_calls_among(bs.drop_last());
    }
}

/// The tool calls of an answer are run. Once the answer is written, the turn runs
/// exactly the tool calls that it holds, in order, whatever text stands beside them;
/// it ends with what was said only where the answer calls no tool, or where it ended
/// in an error or was aborted.
pub proof fn law_calls_are_run(turn: TurnModel, m: MessageModel)
    requires
        turn.phase is Model,
        m is Assistant,
    ensures
        ({
            let content = m->Assistant_content;
            let stop = m->Assistant_stop_reason;
            let calls = content.filter(|b: ContentModel| b is ToolCall);
            let said = content.flat_map(
                |b: ContentModel|
                    match b {
                        ContentModel::Text { text } => text,
                        _ => Seq::<char>::empty(),
                    },
            );
            let first = turn.step(ReportModel::Answer(m));
            let second = first.turn.step(ReportModel::Written(true));
            &&& first.action == ActionModel::Append(seq![m])
            &&& first.shown == Seq::<NoticeModel>::empty()
            &&& if calls.len() > 0 && !(stop is Error) && !(stop is Aborted) {
                &&& second.action == ActionModel::RunTools(calls)
                &&& second.shown == Seq::<NoticeModel>::empty()
                &&& second.turn.phase is Tools
            } else {
                &&& second.action == ActionModel::Finish(Some(turn.said + said))
                &&& second.shown == seq![
                    NoticeModel::Reply(turn.said + said),
                    NoticeModel::TurnEnd { usage: m->Assistant_usage },
                ]
                &&& second.turn.phase is Over
            }
        }),
{
    law_calls_among(m->Assistant_content);
    llm::openai::law_joined_text(m->Assistant_content);
}

/// A reply is given only for a written answer of the model, and never for one whose
/// tool calls are still to be run.
pub proof fn law_only_the_last_answer_is_a_reply(turn: TurnModel, a: ReportModel, b: ReportModel)
    requires
        !(turn.phase is Answered),
        exists|k: int|
            0 <= k < turn.step(a).turn.step(b).shown.len() && (#[trigger] turn.step(a).turn.step(
                b,
            ).shown[k]) is Reply,
    ensures
        turn.phase is Model,
        a is Answer,
        b == ReportModel::Written(true),
        a->Answer_0 matches MessageModel::Assistant { content, stop_reason, .. }
            ==> stop_reason is Error || stop_reason is Aborted || content.filter(
            |b: ContentModel| b is ToolCall,
        ).len() == 0,
{
    if let ReportModel::Answer(MessageModel::Assistant { content, .. }) = a {
        law_calls_among(content);
    }
}

/// What the user typed is written before anything else happens, and the turn is
/// announced once it is.
pub proof fn law_input_is_written_first(turn: TurnModel)
    requires
        turn.phase is Start,
    ensures
        ({
            let first = turn.step(ReportModel::Begin);
            let second = first.turn.step(ReportModel::Written(true));
            &&& first.action == ActionModel::Append(
                seq![MessageModel::User { content: turn.input }],
            )
            &&& first.shown == Seq::<NoticeModel>::empty()
            &&& second.action is AskCancelled
            &&& second.shown == seq![NoticeModel::TurnStart]
            &&& second.turn == TurnModel { phase: Phase::Check, ..turn }
        }),
{
}

/// The model is called as often as the turn allows and no oftener: a round is begun
/// exactly where fewer rounds than that were begun, and it is counted.
pub proof fn law_rounds_are_counted(turn: TurnModel)
    requires
        turn.phase is Check,
    ensures
        ({
            let next = turn.step(ReportModel::Cancelled(false));
            &&& turn.iterations < turn.max_iterations ==> {
                &&& next.action is TakeQueue
                &&& next.shown == Seq::<NoticeModel>::empty()
                &&& next.turn.iterations == turn.iterations + 1
                &&& next.turn.said == turn.said
                &&& next.turn.max_iterations == turn.max_iterations
            }
            &&& turn.iterations >= turn.max_iterations ==> {
                let note = "stopped after "@ + text::decimal(turn.max_iterations as nat)
                    + " model calls in one turn"@;
                &&& next.action == ActionModel::Finish(
                    Some(
                        if turn.said == Seq::<char>::empty() {
                            note
                        } else {
                            turn.said
                        },
                    ),
                )
                &&& next.shown == seq![
                    NoticeModel::Error(note),
                    NoticeModel::TurnEnd { usage: turn.usage },
                ]
            }
        }),
{
    assert(turn.said.len() == 0 ==> turn.said =~= Seq::empty());
}

/// A cancelled turn begins no further round: it ends and says so.
pub proof fn law_cancelled_turn_ends(turn: TurnModel)
    requires
        turn.phase is Check,
    ensures
        ({
            let next = turn.step(ReportModel::Cancelled(true));
            &&& next.action == ActionModel::Finish(Some(turn.said))
            &&& next.shown == seq![
                NoticeModel::Error("cancelled"@),
                NoticeModel::TurnEnd { usage: turn.usage },
            ]
            &&& next.turn.phase is Over
        }),
{
}

/// What the user typed meanwhile joins the conversation before the model is called,
/// message by message, until nothing more is waiting.
pub proof fn law_queue_joins_the_conversation(turn: TurnModel, typed: Seq<char>)
    requires
        turn.phase is Queue,
    ensures
        ({
            let first = turn.step(ReportModel::Queued(Some(typed)));
            let second = first.turn.step(ReportModel::Written(true));
            &&& first.action == ActionModel::Append(seq![MessageModel::User { content: typed }])
            &&& first.shown == Seq::<NoticeModel>::empty()
            &&& second.action is TakeQueue
            &&& second.shown == Seq::<NoticeModel>::empty()
            &&& second.turn == turn
        }),
{
}

/// Once nothing more is waiting, the conversation is compacted where that is due and
/// the model is called. What it last reported is forgotten exactly where the
/// conversation was changed.
pub proof fn law_model_is_called(turn: TurnModel, changed: bool)
    requires
        turn.phase is Queue,
    ensures
        ({
            let first = turn.step(ReportModel::Queued(None));
            let second = first.turn.step(ReportModel::Compacted { ok: true, changed });
            &&& first.action is Compact
            &&& second.action is CallModel
            &&& first.shown + second.shown == Seq::<NoticeModel>::empty()
            &&& second.turn.phase is Model
            &&& second.turn.said == turn.said
            &&& second.turn.usage == (if changed {
                Usage::zero()
            } else {
                turn.usage
            })
        }),
{
}

/// A model call that failed is recorded in the conversation, shown, and is what the
/// turn ends with.
pub proof fn law_failure_is_recorded(turn: TurnModel, reason: Seq<char>)
    requires
        turn.phase is Model,
    ensures
        ({
            let first = turn.step(ReportModel::Failure(reason));
            let second = first.turn.step(ReportModel::Written(true));
            &&& first.action matches ActionModel::Append(ms)
            &&& ms.len() == 1
            &&& ms[0] matches MessageModel::Assistant { content, stop_reason, error, .. }
            &&& stop_reason is Error
            &&& error == Some(reason)
            &&& content == seq![ContentModel::Text { text: "(error: "@ + reason + ")"@ }]
            &&& content.filter(|b: ContentModel| b is ToolCall).len() == 0
            &&& first.shown == seq![NoticeModel::Error(reason)]
            &&& second.action == ActionModel::Finish(Some(reason))
            &&& second.shown == seq![NoticeModel::TurnEnd { usage: turn.usage }]
        }),
{
    law_calls_among(failure_message(reason)->Assistant_content);
    assert(failure_message(reason)->Assistant_content.drop_last() =~= Seq::empty());
    reveal_with_fuel(calls_among, 2);
}

/// Once the tools have run, the turn goes on to the next round and has said nothing
/// yet in it.
pub proof fn law_tools_lead_to_the_next_round(turn: TurnModel)
    requires
        turn.phase is Tools,
    ensures
        ({
            let next = turn.step(ReportModel::ToolsDone(true));
            &&& next.action is AskCancelled
            &&& next.shown == Seq::<NoticeModel>::empty()
            &&& next.turn == TurnModel { phase: Phase::Check, said: Seq::empty(), ..turn }
        }),
{
}

/// A turn whose conversation could not be written, compacted or continued ends at
/// once, without a reply.
pub proof fn law_broken_turn_ends(turn: TurnModel, report: ReportModel)
    requires
        !(turn.phase is Over),
        report == ReportModel::Written(false) || report == ReportModel::ToolsDone(false)
            || (report matches ReportModel::Compacted { ok, .. } && !ok),
    ensures
        turn.step(report).action == ActionModel::Finish(None),
        turn.step(report).shown == seq![NoticeModel::TurnEnd { usage: turn.usage }],
        turn.step(report).turn.phase is Over,
{
}

/// The turn after several reports.
pub open spec fn after_reports(turn: TurnModel, reports: Seq<ReportModel>) -> TurnModel
    decreases reports.len(),
{
    if reports.len() == 0 {
        turn
    } else {
        after_reports(turn, reports.drop_last()).step(reports.last()).turn
    }
}

/// What a turn shows on its way through several reports.
pub open spec fn shown_over(turn: TurnModel, reports: Seq<ReportModel>) -> Seq<NoticeModel>
    decreases reports.len(),
{
    if reports.len() == 0 {
        Seq::empty()
    } else {
        shown_over(turn, reports.drop_last()) + after_reports(turn, reports.drop_last()).step(
            reports.last(),
        ).shown
    }
}

/// A turn as a whole shows `TurnEnd` exactly once, and nothing behind it: not before
/// it is over, and whatever comes in afterwards.
pub proof fn law_one_turn_end(turn: TurnModel, reports: Seq<ReportModel>)
    requires
        turn.phase == Phase::Start,
    ensures
        ({
            let shown = shown_over(turn, reports);
            let over = after_reports(turn, reports).phase == Phase::Over;
            &&& over ==> shown.len() > 0 && shown.last() is TurnEnd
            &&& forall|i: int|
                0 <= i < shown.len() && #[trigger] shown[i] is TurnEnd ==> over && i == shown.len()
                    - 1
        }),
    decreases reports.len(),
{
    if reports.len() > 0 {
        let front = reports.drop_last();
        law_one_turn_end(turn, front);
        let before = after_reports(turn, front);
        let so_far = shown_over(turn, front);
        let step = before.step(reports.last());
        let shown = shown_over(turn, reports);
        assert(shown == so_far + step.shown);
        if before.phase == Phase::Over {
            law_over_is_over(before, reports.last());
            assert(shown =~= so_far);
        } else {
            law_every_turn_ends_with_turn_end(before, reports.last());
            assert forall|i: int|
                0 <= i < shown.len() && #[trigger] shown[i] is TurnEnd implies step.action is Finish
                && i == shown.len() - 1 by {
                if i < so_far.len() {
                    assert(so_far[i] is TurnEnd);
                } else {
                    assert(step.shown[i - so_far.len()] is TurnEnd);
                }
            }
        }
    }
}

/// How many of the reports led to a model call.
pub open spec fn model_calls(turn: TurnModel, reports: Seq<ReportModel>) -> nat
    decreases reports.len(),
{
    if reports.len() == 0 {
        0
    } else {
        let before = after_reports(turn, reports.drop_last());
        model_calls(turn, reports.drop_last()) + (if before.step(reports.last()).action
            is CallModel {
            1nat
        } else {
            0nat
        })
    }
}

proof fn lemma_calls_are_counted(turn: TurnModel, reports: Seq<ReportModel>)
    requires
        turn.phase == Phase::Start,
        turn.iterations == 0,
    ensures
        ({
            let now = after_reports(turn, reports);
            &&& now.max_iterations == turn.max_iterations
            &&& now.iterations <= now.max_iterations
            &&& model_calls(turn, reports) + (if now.phase == Phase::Queue || now.phase
                == Phase::Steering || now.phase == Phase::Compaction {
                1int
            } else {
                0int
            }) <= now.iterations
        }),
    decreases reports.len(),
{
    if reports.len() > 0 {
        lemma_calls_are_counted(turn, reports.drop_last());
    }
}

/// However long the model goes on calling tools, one turn makes at most so many
/// model calls as are allowed.
pub proof fn law_model_calls_are_bounded(turn: TurnModel, reports: Seq<ReportModel>)
    requires
        turn.phase == Phase::Start,
        turn.iterations == 0,
    ensures
        model_calls(turn, reports) <= turn.max_iterations,
{
    lemma_calls_are_counted(turn, reports);
}

/// What is to be done about a tool call.
pub enum ToolStep {
    /// All calls were dealt with.
    Done,
    /// Append this result: the call is not run any more.
    Skip(Message),
    /// Show `start`, then run the call.
    Run { id: String, name: String, input: Json, start: AgentEvent },
}

/// The result of a call that was cancelled before it ran.
pub open spec fn cancelled_result(id: Seq<char>, name: Seq<char>) -> MessageModel {
    MessageModel::ToolResult {
        tool_call_id: id,
        tool_name: name,
        content: "cancelled before execution"@,
        is_error: true,
        blob: None,
    }
}

/// `r` is a result of the call `c`.
pub open spec fn is_result_of(r: MessageModel, c: ContentModel) -> bool {
    match (r, c) {
        (
            MessageModel::ToolResult { tool_call_id, tool_name, .. },
            ContentModel::ToolCall { id, name, .. },
        ) => tool_call_id == id && tool_name == name,
        _ => false,
    }
}

proof fn lemma_call_is_among(bs: Seq<ContentModel>, i: int)
    requires
        0 <= i < calls_among(bs).len(),
    ensures
        exists|b: int| 0 <= b < bs.len() && #[trigger] bs[b] == calls_among(bs)[i],
    decreases bs.len(),
{
    let init = bs.drop_last();
    if i < calls_among(init).len() {
        lemma_call_is_among(init, i);
        let b = choose|b: int| 0 <= b < init.len() && #[trigger] init[b] == calls_among(init)[i];
        assert(bs[b] == calls_among(bs)[i]);
    } else {
        assert(bs[bs.len() - 1] == calls_among(bs)[i]);
    }
}

/// A turn leaves no orphaned tool result: where every result follows its call, it
/// still does once an answer and a result for each of its calls, in order, are
/// appended.
pub proof fn law_results_stay_with_their_calls(
    ms: Seq<MessageModel>,
    answer: MessageModel,
    results: Seq<MessageModel>,
)
    requires
        compact::results_follow_calls(ms),
        answer matches MessageModel::Assistant { content, .. } && results.len() == calls_among(
            content,
        ).len() && forall|t: int|
            0 <= t < results.len() ==> is_result_of(
                #[trigger] results[t],
                calls_among(content)[t],
            ),
    ensures
        compact::results_follow_calls(ms.push(answer) + results),
{
    let all = ms.push(answer) + results;
    let n = ms.len() as int;
    let content = answer->Assistant_content;
    assert forall|j: int| 0 <= j < all.len() && #[trigger] all[j] is ToolResult implies exists|
        i: int,
    | compact::answers(all, i, j) by {
        if j < n {
            assert(all[j] == ms[j]);
            let i = choose|i: int| compact::answers(ms, i, j);
            assert(all[i] == ms[i]);
            assert forall|k: int| i < k < j implies !(#[trigger] all[k] is User) by {
                assert(all[k] == ms[k]);
            }
            assert(compact::answers(all, i, j));
        } else {
            assert(all[n] == answer);
            let t = j - n - 1;
            assert(all[j] == results[t]);
            assert forall|k: int| n < k < j implies !(#[trigger] all[k] is User) by {
                assert(all[k] == results[k - n - 1]);
            }
            lemma_call_is_among(content, t);
            let b = choose|b: int|
                0 <= b < content.len() && #[trigger] content[b] == calls_among(content)[t];
            assert(compact::calls_under(content[b], results[t]->ToolResult_tool_call_id));
            assert(compact::answers(all, n, j));
        }
    }
}

/// The tool calls of one answer. They run one after the other, in order.
pub struct ToolRun {
    calls: Vec<ContentBlock>,
    at: usize,
}

impl ToolRun {
    /// The calls that are still to be dealt with.
    pub closed spec fn view(&self) -> Seq<ContentModel> {
        types::contents(self.calls@).skip(self.at as int)
    }

    #[verifier::type_invariant]
    spec fn within(&self) -> bool {
        &&& self.at <= self.calls@.len()
        &&& forall|i: int| 0 <= i < self.calls@.len() ==> (#[trigger] self.calls@[i])@ is ToolCall
    }

    /// The tool calls among `blocks`.
    pub fn new(blocks: &Vec<ContentBlock>) -> (r: ToolRun)
        ensures
            r@ == calls_among(types::contents(blocks@)),
    {
        let ghost all = types::contents(blocks@);
        let mut calls: Vec<ContentBlock> = Vec::new();
        let mut i: usize = 0;
        assert(all.take(0) =~= Seq::empty());
        assert(types::contents(calls@) =~= Seq::empty());
        while i < blocks.len()
            invariant
                i <= blocks@.len(),
                all == types::contents(blocks@),
                types::contents(calls@) == calls_among(all.take(i as int)),
                forall|j: int| 0 <= j < calls@.len() ==> (#[trigger] calls@[j])@ is ToolCall,
            decreases blocks@.len() - i,
        {
            assert(all.take(i + 1).drop_last() =~= all.take(i as int));
            assert(all.take(i + 1).last() == blocks@[i as int]@);
            let ghost before = calls@;
            if let ContentBlock::ToolCall { .. } = &blocks[i] {
                calls.push(blocks[i].clone());
                assert(types::contents(calls@) =~= types::contents(before).push(
                    blocks@[i as int]@,
                ));
            }
            i += 1;
        }
        assert(all.take(i as int) =~= all);
        let r = ToolRun { calls, at: 0 };
        assert(r@ =~= types::contents(r.calls@));
        r
    }

    /// Takes the next call: it is run, or answered at once where the turn was
    /// cancelled.
    pub fn next(&mut self, cancelled: bool) -> (r: ToolStep)
        ensures
            match r {
                ToolStep::Done => old(self)@.len() == 0 && final(self)@ == old(self)@,
                ToolStep::Skip(m) => {
                    &&& cancelled
                    &&& old(self)@.len() > 0
                    &&& final(self)@ == old(self)@.skip(1)
                    &&& match old(self)@[0] {
                        ContentModel::ToolCall { id, name, .. } => m@ == cancelled_result(
                            id,
                            name,
                        ),
                        _ => false,
                    }
                },
                ToolStep::Run { id, name, input, start } => {
                    &&& !cancelled
                    &&& old(self)@.len() > 0
                    &&& final(self)@ == old(self)@.skip(1)
                    &&& old(self)@[0] == (ContentModel::ToolCall {
                        id: id@,
                        name: name@,
                        input: input@,
                    })
                    &&& start@ == (NoticeModel::ToolStart {
                        name: name@,
                        input: summarized(input@),
                    })
                },
            },
    {
        proof {
            use_type_invariant(&*self);
        }
        let ghost before = self@;
        if self.at == self.calls.len() {
            return ToolStep::Done;
        }
        let at: usize = self.at;
        assert(before[0] == self.calls@[at as int]@);
        let r = match &self.calls[at] {
            ContentBlock::ToolCall { id, name, input } => if cancelled {
                ToolStep::Skip(
                    Message::ToolResult {
                        tool_call_id: id.clone(),
                        tool_name: name.clone(),
                        content: "cancelled before execution".to_owned(),
                        is_error: true,
                        blob: None,
                    },
                )
            } else {
                ToolStep::Run {
                    id: id.clone(),
                    name: name.clone(),
                    input: input.clone(),
                    start: AgentEvent::ToolStart {
                        name: name.clone(),
                        input: summarize_input(input),
                    },
                }
            },
            _ => ToolStep::Done,
        };
        self.at = at + 1;
        assert(self@ =~= before.skip(1));
        r
    }
}

/// What is shown and what is appended once a tool has run, given what is kept of
/// its output and where the rest lies.
pub fn tool_finished(
    id: &str,
    name: &str,
    is_error: bool,
    content: String,
    blob: Option<String>,
) -> (r: (AgentEvent, Message))
    ensures
        r.0@ == (NoticeModel::ToolEnd {
            name: name@,
            is_error,
            preview: text::prefix(content@, 200),
        }),
        r.1@ == (MessageModel::ToolResult {
            tool_call_id: id@,
            tool_name: name@,
            content: content@,
            is_error,
            blob: text::opt(blob),
        }),
{
    let preview = text::take_chars(content.as_str(), 200);
    (
        AgentEvent::ToolEnd { name: name.to_owned(), is_error, preview },
        Message::ToolResult {
            tool_call_id: id.to_owned(),
            tool_name: name.to_owned(),
            content,
            is_error,
            blob,
        },
    )
}

/// One member of an input, as it is shown: strings bare, anything else as JSON.
pub open spec fn shown_member(key: Seq<char>, value: JsonModel) -> Seq<char> {
    key + "="@ + (match value {
        JsonModel::Str(s) => s,
        other => json::json_text(other),
    })
}

/// The members of an input, as they are shown.
pub open spec fn shown_members(members: Seq<(Seq<char>, JsonModel)>) -> Seq<Seq<char>> {
    Seq::new(members.len(), |i: int| shown_member(members[i].0, members[i].1))
}

/// An input before it is put on one line.
pub open spec fn shown_input(input: JsonModel) -> Seq<char> {
    match input {
        JsonModel::Object(members) => text::join(shown_members(members), " "@),
        other => json::json_text(other),
    }
}

/// A short rendering of an input on a single line.
pub open spec fn summarized(input: JsonModel) -> Seq<char> {
    one_line(shown_input(input))
}

/// `s` on one line, cut.
pub open spec fn one_line(s: Seq<char>) -> Seq<char> {
    text::prefix(text::replace(s, "\n"@, "⏎"@), 120)
}

/// `s` on one line, cut.
pub fn on_one_line(s: &str) -> (r: String)
    ensures
        r@ == one_line(s@),
{
    let flat = text::str_replace(s, "\n", "⏎");
    text::take_chars(flat.as_str(), 120)
}

/// A short rendering of a tool's input on a single line, to show progress.
pub fn summarize_input(input: &Json) -> (r: String)
    ensures
        r@ == summarized(input@),
{
    let whole = match input {
        Json::Object(o) => {
            let mut parts: Vec<String> = Vec::new();
            let mut i: usize = 0;
            while i < o.len()
                invariant
                    i <= o@.len(),
                    parts@.len() == i,
                    forall|j: int|
                        0 <= j < i ==> (#[trigger] parts@[j])@ == shown_member(
                            o@[j].0,
                            o@[j].1,
                        ),
                decreases o@.len() - i,
            {
                let mut part = o.key(i).to_owned();
                part.push_str("=");
                match o.value(i) {
                    Json::Str(s) => part.push_str(s.as_str()),
                    other => {
                        let written = other.to_text();
                        part.push_str(written.as_str());
                    },
                }
                parts.push(part);
                i += 1;
            }
            assert(text::views(parts@) =~= shown_members(o@));
            text::join_strings(&parts, " ")
        },
        other => other.to_text(),
    };
    on_one_line(whole.as_str())
}

/// What is shown of an input is on one line and bounded.
pub proof fn law_one_line_is_one_line(s: Seq<char>)
    ensures
        !one_line(s).contains('\n'),
        one_line(s).len() <= 120,
{
    reveal_strlit("\n");
    reveal_strlit("⏎");
    assert("\n"@ =~= seq!['\n']);
    text::lemma_replace_char_gone(s, '\n', "⏎"@, 0);
    let flat = text::replace(s, "\n"@, "⏎"@);
    assert forall|i: int| 0 <= i < one_line(s).len() implies one_line(s)[i] != '\n' by {
        assert(one_line(s)[i] == flat[i]);
        assert(flat.contains(flat[i]));
    }
}

proof fn lemma_said_is_of_this_round(turn: TurnModel, reports: Seq<ReportModel>)
    requires
        turn.phase is Start,
        turn.said == Seq::<char>::empty(),
    ensures
        ({
            let t = after_reports(turn, reports);
            t.said == Seq::<char>::empty() || t.phase is Answered || t.phase is Tools
                || t.phase is Over
        }),
    decreases reports.len(),
{
    if reports.len() > 0 {
        lemma_said_is_of_this_round(turn, reports.drop_last());
    }
}

/// The reply of a turn is the whole text of its last answer and nothing else,
/// however many rounds came before it.
pub proof fn law_reply_is_the_last_answer(
    turn: TurnModel,
    reports: Seq<ReportModel>,
    m: MessageModel,
)
    requires
        turn.phase is Start,
        turn.said == Seq::<char>::empty(),
        after_reports(turn, reports).phase is Model,
        m is Assistant,
    ensures
        ({
            let content = m->Assistant_content;
            let said = content.flat_map(
                |b: ContentModel|
                    match b {
                        ContentModel::Text { text } => text,
                        _ => Seq::<char>::empty(),
                    },
            );
            let before = after_reports(turn, reports.push(ReportModel::Answer(m)));
            let end = before.step(ReportModel::Written(true));
            end.action is Finish ==> end.action == ActionModel::Finish(Some(said))
                && end.shown[0] == NoticeModel::Reply(said)
        }),
{
    lemma_said_is_of_this_round(turn, reports);
    law_calls_are_run(after_reports(turn, reports), m);
    assert(reports.push(ReportModel::Answer(m)).drop_last() =~= reports);
    let content = m->Assistant_content;
    let said = content.flat_map(
        |b: ContentModel|
            match b {
                ContentModel::Text { text } => text,
                _ => Seq::<char>::empty(),
            },
    );
    assert(Seq::<char>::empty() + said =~= said);
}

/// Every member of an input is shown, under its key: a string as it is, anything else as
/// JSON.
pub proof fn law_every_member_is_shown(
    members: Seq<(Seq<char>, JsonModel)>,
    i: int,
    value: Seq<char>,
)
    requires
        0 <= i < members.len(),
        members[i].1 matches JsonModel::Str(s) ==> value == s,
        !(members[i].1 is Str) ==> value == json::json_text(members[i].1),
    ensures
        exists|a: Seq<char>, b: Seq<char>|
            #![trigger a + members[i].0 + "="@ + value + b]
            shown_input(JsonModel::Object(members)) == a + members[i].0 + "="@ + value + b,
{
    text::law_joined_parts_stand(shown_members(members), " "@, i);
    let parts = shown_members(members);
    let key = members[i].0;
    assert(parts[i] == key + "="@ + value);
    let (a, b) = choose|a: Seq<char>, b: Seq<char>|
        #![trigger a + parts[i] + b]
        text::join(parts, " "@) == a + parts[i] + b;
    assert(a + key + "="@ + value + b =~= a + parts[i] + b);
}

/// What is shown on one line is the text itself, each line break replaced by a mark, as
/// far as there is room.
pub proof fn law_one_line_keeps_the_text(s: Seq<char>)
    ensures
        one_line(s).is_prefix_of(
            s.map_values(
                |c: char|
                    if c == '\n' {
                        '⏎'
                    } else {
                        c
                    },
            ),
        ),
        one_line(s).len() == (if s.len() <= 120 {
            s.len() as int
        } else {
            120
        }),
{
    reveal_strlit("\n");
    reveal_strlit("⏎");
    assert("\n"@ =~= seq!['\n']);
    assert("⏎"@ =~= seq!['⏎']);
    text::lemma_one_for_one(s, '\n', '⏎');
    let m = s.map_values(
        |c: char|
            if c == '\n' {
                '⏎'
            } else {
                c
            },
    );
    assert(text::replace(s, "\n"@, "⏎"@) == m);
}

/// A conversation is compacted exactly where what it fills of the window leaves less than
/// the reserve and there is a turn to drop.
pub proof fn law_compaction_makes_room(ms: Seq<MessageModel>, last: Usage, window: u32)
    ensures
        compaction_due(ms, last, window) <==> compact::tokens_in_window(ms, last)
            + compact::RESERVE_TOKENS > (if window >= compact::RESERVE_TOKENS {
            window
        } else {
            compact::RESERVE_TOKENS
        }) && compact::cut_point(ms) > 0,
        compaction_due(ms, last, window) ==> 0 < compact::cut_point(ms) < ms.len()
            && ms[compact::cut_point(ms)] is User,
{
    compact::law_cut_is_a_turn_boundary(ms);
}

/// The input of a call is what its arguments say, white space around them aside. Arguments
/// that cannot be read are no arguments at all.
pub proof fn law_arguments_are_read(args: Seq<char>, key: Seq<char>)
    ensures
        json::json_parsed(text::trim(args)) matches Some(j) ==> call_input(args) == j,
        json::json_parsed(text::trim(args)) is None ==> call_input(args) is Object && call_input(
            args,
        ).get(key) is None,
{
}

/// Every call of an answer is given its own arguments.
pub proof fn law_calls_have_their_own_input(calls: Seq<PendingModel>, i: int)
    requires
        0 <= i < calls.len(),
    ensures
        call_inputs(calls).len() == calls.len(),
        call_inputs(calls)[i] == call_input(calls[i].args),
{
}

/// A call that is not run any more is answered under its id, as failed.
pub proof fn law_cancelled_calls_are_answered(id: Seq<char>, name: Seq<char>, input: JsonModel)
    ensures
        is_result_of(cancelled_result(id, name), ContentModel::ToolCall { id, name, input }),
        cancelled_result(id, name)->ToolResult_is_error,
{
}

proof fn lemma_ending_carries_nothing(es: Seq<StreamModel>, ending: Seq<StreamModel>)
    requires
        forall|i: int|
            0 <= i < ending.len() ==> #[trigger] ending[i] is ToolCallEnd || ending[i] is Done,
    ensures
        llm::streamed_text(es + ending) == llm::streamed_text(es),
        llm::streamed_thinking(es + ending) == llm::streamed_thinking(es),
    decreases ending.len(),
{
    if ending.len() > 0 {
        let init = ending.drop_last();
        lemma_ending_carries_nothing(es, init);
        llm::lemma_streamed_one(ending.last());
        assert(ending[ending.len() - 1] == ending.last());
        llm::lemma_streamed_add(es + init, seq![ending.last()]);
        assert(es + init + seq![ending.last()] =~= es + ending);
        assert(llm::streamed_text(es + ending) =~= llm::streamed_text(es));
        assert(llm::streamed_thinking(es + ending) =~= llm::streamed_thinking(es));
    } else {
        assert(es + ending =~= es);
    }
}

/// The answer of an OpenAI-compatible server says what its chunks say: all text and all
/// reasoning, in order, from the first chunk to the last.
pub proof fn law_answer_says_what_was_streamed(chunks: Seq<JsonModel>, stop: StopReason)
    ensures
        ({
            let es = llm::openai::stream_events(chunks) + llm::openai::finish_events(
                llm::openai::stream_open(chunks),
                stop,
            );
            &&& AssemblyModel::of(es).text == chunks.flat_map(
                |c: JsonModel| llm::openai::delta_member(c, "content"@),
            )
            &&& AssemblyModel::of(es).thinking == chunks.flat_map(
                |c: JsonModel| llm::openai::delta_member(c, "reasoning_content"@),
            )
            &&& AssemblyModel::of(es).stop == stop
        }),
{
    let events = llm::openai::stream_events(chunks);
    let ending = llm::openai::finish_events(llm::openai::stream_open(chunks), stop);
    let es = events + ending;
    llm::openai::law_stream_carries_all(chunks);
    lemma_ending_carries_nothing(events, ending);
    law_nothing_streamed_is_lost(es);
    let init = es.drop_last();
    let none = Seq::<StreamModel>::empty();
    law_last_reason_stands(init, stop, none);
    assert(es =~= init.push(StreamModel::Done(stop)) + none);
}

} // verus!
