//! Model access.
//!
//! Two backends behind one enum. A call that fails in a way that may pass is
//! made again after a pause, as long as nothing of its answer was shown yet.
pub mod anthropic;
pub mod openai;

use crate::config::{Backend, ModelConfig};
use crate::json::{Json, JsonModel};
use crate::text;
use crate::types;
use crate::types::{Message, StreamEvent, StreamModel};
use std::time::Duration;
use vstd::prelude::*;

verus! {

/// A tool as advertised to the model.
#[derive(Debug, Clone, PartialEq)]
pub struct ToolSchema {
    pub name: &'static str,
    pub description: &'static str,
    pub input_schema: Json,
}

/// What a [`ToolSchema`] holds.
pub struct SchemaModel {
    pub name: Seq<char>,
    pub description: Seq<char>,
    pub input_schema: JsonModel,
}

pub open spec fn schema_of(t: ToolSchema) -> SchemaModel {
    SchemaModel {
        name: t.name@,
        description: t.description@,
        input_schema: t.input_schema@,
    }
}

pub open spec fn schemas_of(ts: Seq<ToolSchema>) -> Seq<SchemaModel> {
    Seq::new(ts.len(), |i: int| schema_of(ts[i]))
}

/// The number sent as `temperature`.
pub open spec fn temperature_of(t: Option<Json>) -> Option<JsonModel> {
    match t {
        Some(j) => Some(j@),
        None => None,
    }
}

/// `body` with `value` under `key`, where there is a value.
pub open spec fn with_opt(body: JsonModel, key: Seq<char>, value: Option<JsonModel>) -> JsonModel {
    match value {
        Some(v) => body.with(key, v),
        None => body,
    }
}

pub proof fn lemma_with_opt(
    body: JsonModel,
    key: Seq<char>,
    value: Option<JsonModel>,
    other: Seq<char>,
)
    requires
        body is Object,
        other != key,
    ensures
        with_opt(body, key, value) is Object,
        with_opt(body, key, value).get(other) == body.get(other),
        body.get(key) is None ==> with_opt(body, key, value).get(key) == value,
{
    if let Some(v) = value {
        crate::json::law_get_after_set(body->Object_0, key, v, other);
    }
}

/// What the model is asked.
pub struct Request<'a> {
    pub system: &'a str,
    pub messages: &'a [Message],
    pub tools: &'a [ToolSchema],
    pub max_tokens: u32,
    /// The JSON number to send; `None` leaves the parameter out.
    pub temperature: Option<Json>,
    /// Ask for exact token counts.
    pub stream_usage: bool,
}

/// A model interface.
pub enum Provider {
    Anthropic(anthropic::Client),
    OpenaiCompat(openai::Client),
}

impl Provider {
    /// The interface that `cfg` names, given what the environment holds under
    /// `api_key_env`. The Anthropic interface needs a key; without one the error
    /// says which variable to set.
    pub fn new(cfg: &ModelConfig, key: Option<String>) -> (r: Result<Provider, String>)
        ensures
            match cfg.backend {
                Backend::OpenaiCompat => r matches Ok(Provider::OpenaiCompat(c))
                    && c.is_for(cfg, text::opt(key)),
                Backend::Anthropic => match r {
                    Ok(Provider::Anthropic(c)) => c.is_for(cfg, text::opt(key)),
                    Ok(_) => false,
                    Err(e) => anthropic::key_of(cfg, text::opt(key)) is None && e@
                        == anthropic::key_missing(cfg.api_key_env@),
                },
            },
    {
        match cfg.backend {
            Backend::Anthropic => match anthropic::Client::new(cfg, key) {
                Ok(c) => Ok(Provider::Anthropic(c)),
                Err(e) => Err(e),
            },
            Backend::OpenaiCompat => Ok(Provider::OpenaiCompat(openai::Client::new(cfg, key))),
        }
    }

    /// The model that answers.
    pub fn model_name(&self) -> (r: &str)
        ensures
            r@ == (match self {
                Provider::Anthropic(c) => c.model@,
                Provider::OpenaiCompat(c) => c.model@,
            }),
    {
        match self {
            Provider::Anthropic(c) => c.model.as_str(),
            Provider::OpenaiCompat(c) => c.model.as_str(),
        }
    }
}

/// A refusal of the provider.
#[derive(Debug, PartialEq)]
pub struct ApiError {
    pub status: Option<u16>,
    pub message: String,
    /// How long the server asks to wait.
    pub retry_after: Option<Duration>,
}

impl ApiError {
    /// A failure reported inside a stream, with no status of its own.
    pub open spec fn in_stream(&self, message: Seq<char>) -> bool {
        self.status is None && self.message@ == message && self.retry_after is None
    }
}

/// Why a model call failed.
#[derive(Debug, PartialEq)]
pub enum CallError {
    Api(ApiError),
    /// The request did not get through.
    Transport { timeout: bool, connect: bool, request: bool },
    Other,
}

impl CallError {
    /// Whether the same call may go through later: timeouts, conflicts, rate
    /// limits, failures of the server and of the transport.
    pub open spec fn retryable(&self) -> bool {
        match self {
            CallError::Api(api) => match api.status {
                Some(s) => s == 408 || s == 409 || s == 429 || 500 <= s < 600,
                None => true,
            },
            CallError::Transport { timeout, connect, request } => *timeout || *connect
                || *request,
            CallError::Other => false,
        }
    }

    /// How long the server asked to wait.
    pub open spec fn asked_wait(&self) -> Option<Duration> {
        match self {
            CallError::Api(api) => api.retry_after,
            _ => None,
        }
    }
}

/// Whether the same call may go through later.
pub fn is_retryable(e: &CallError) -> (r: bool)
    ensures
        r == e.retryable(),
{
    match e {
        CallError::Api(api) => match api.status {
            Some(s) => s == 408 || s == 409 || s == 429 || (500 <= s && s < 600),
            None => true,
        },
        CallError::Transport { timeout, connect, request } => *timeout || *connect || *request,
        CallError::Other => false,
    }
}

/// How long the server asked to wait.
pub fn retry_after(e: &CallError) -> (r: Option<Duration>)
    ensures
        r == e.asked_wait(),
{
    match e {
        CallError::Api(api) => api.retry_after,
        _ => None,
    }
}

/// How long a `Duration` is, in whole milliseconds.
pub uninterp spec fn duration_millis(d: Duration) -> nat;

/// `Duration::from_secs` is so many seconds long.
#[verifier::external_body]
pub(crate) fn duration_from_secs(secs: u64) -> (r: Duration)
    ensures
        duration_millis(r) == secs * 1000,
{
    Duration::from_secs(secs)
}

/// `Duration::from_millis` is so many milliseconds long.
#[verifier::external_body]
fn duration_from_millis(millis: u64) -> (r: Duration)
    ensures
        duration_millis(r) == millis,
{
    Duration::from_millis(millis)
}

/// What a `Retry-After` header asks for: a number of seconds.
pub open spec fn asked_secs(header: Option<Seq<char>>) -> Option<nat> {
    match header {
        Some(h) => text::parsed(text::trim(h), u64::MAX as nat),
        None => None,
    }
}

/// `wait` is what the header asks for.
pub open spec fn is_asked_wait(header: Option<&str>, wait: Option<Duration>) -> bool {
    match asked_secs(
        match header {
            Some(h) => Some(h@),
            None => None,
        },
    ) {
        Some(secs) => wait matches Some(d) && duration_millis(d) == secs * 1000,
        None => wait is None,
    }
}

/// How long a response asks to wait, given its `Retry-After` header where it has
/// one that is text.
pub fn parse_retry_after(header: Option<&str>) -> (r: Option<Duration>)
    ensures
        is_asked_wait(header, r),
{
    match header {
        Some(h) => {
            let t = text::trimmed(h);
            match text::parse_decimal(t.as_str(), u64::MAX) {
                Some(secs) => Some(duration_from_secs(secs)),
                None => None,
            }
        },
        None => None,
    }
}

/// How often one request is tried.
pub const MAX_ATTEMPTS: u32 = 3;

/// What to do after an attempt.
pub enum Verdict {
    /// It went through.
    Succeed,
    /// The error goes to the caller.
    Fail,
    /// Wait so long, then try again.
    Retry { wait: Duration },
}

/// The attempts at one request: which one is running, and the pause that would
/// follow it.
pub struct Attempts {
    attempt: u32,
    delay_millis: u64,
}

/// The pause after attempt `n` where the server asks for none: half a second,
/// doubled each time.
pub open spec fn backoff_millis(n: int) -> nat
    decreases n,
{
    if n <= 1 {
        500
    } else {
        2 * backoff_millis(n - 1)
    }
}

impl Attempts {
    /// The number of the attempt that is running, from one.
    pub closed spec fn number(&self) -> int {
        self.attempt as int
    }

    #[verifier::type_invariant]
    spec fn in_bounds(&self) -> bool {
        1 <= self.attempt <= MAX_ATTEMPTS && self.delay_millis == backoff_millis(
            self.attempt as int,
        )
    }

    /// The first attempt.
    pub fn new() -> (r: Attempts)
        ensures
            r.number() == 1,
    {
        Attempts { attempt: 1, delay_millis: 500 }
    }

    /// Decides after an attempt, from whether it `emitted` anything and from the
    /// error that ended it, if one did. What was already shown must not be
    /// repeated, so an attempt that showed something is final.
    pub fn after(&mut self, emitted: bool, error: Option<&CallError>) -> (r: Verdict)
        ensures
            1 <= old(self).number() <= MAX_ATTEMPTS,
            match error {
                None => r is Succeed && final(self).number() == old(self).number(),
                Some(e) => if emitted || old(self).number() == MAX_ATTEMPTS || !e.retryable() {
                    r is Fail && final(self).number() == old(self).number()
                } else {
                    &&& final(self).number() == old(self).number() + 1
                    &&& r matches Verdict::Retry { wait } && match e.asked_wait() {
                        Some(d) => wait == d,
                        None => duration_millis(wait) == backoff_millis(old(self).number()),
                    }
                },
            },
    {
        proof {
            use_type_invariant(&*self);
            reveal_with_fuel(backoff_millis, 4);
        }
        match error {
            None => Verdict::Succeed,
            Some(e) => {
                if emitted || self.attempt == MAX_ATTEMPTS || !is_retryable(e) {
                    Verdict::Fail
                } else {
                    let wait = match retry_after(e) {
                        Some(d) => d,
                        None => duration_from_millis(self.delay_millis),
                    };
                    *self =
                    Attempts { attempt: self.attempt + 1, delay_millis: self.delay_millis * 2 };
                    Verdict::Retry { wait }
                }
            },
        }
    }
}

/// Appends one event.
pub(crate) fn emit(out: &mut Vec<StreamEvent>, e: StreamEvent)
    ensures
        types::events(final(out)@) == types::events(old(out)@).push(e@),
{
    out.push(e);
    assert(types::events(out@) =~= types::events(old(out)@).push(e@));
}

/// A tool call is open where `open` says so before `es` and where the result
/// says so after; nothing where the events do not nest: a call that starts
/// inside another, ends twice, or gets arguments while none is open.
pub open spec fn nesting(open: bool, es: Seq<types::StreamModel>) -> Option<bool>
    decreases es.len(),
{
    if es.len() == 0 {
        Some(open)
    } else {
        match nesting(open, es.drop_last()) {
            None => None,
            Some(o) => match es.last() {
                types::StreamModel::ToolCallStart { .. } => if o {
                    None
                } else {
                    Some(true)
                },
                types::StreamModel::ToolCallEnd => if o {
                    Some(false)
                } else {
                    None
                },
                types::StreamModel::ToolCallDelta(_) => if o {
                    Some(true)
                } else {
                    None
                },
                _ => Some(o),
            },
        }
    }
}

/// Nesting carries over from one run of events to the next.
pub proof fn lemma_nesting_concat(
    open: bool,
    a: Seq<types::StreamModel>,
    b: Seq<types::StreamModel>,
)
    ensures
        nesting(open, a + b) == (match nesting(open, a) {
            Some(o) => nesting(o, b),
            None => None,
        }),
    decreases b.len(),
{
    if b.len() == 0 {
        assert(a + b =~= a);
    } else {
        lemma_nesting_concat(open, a, b.drop_last());
        assert((a + b).drop_last() =~= a + b.drop_last());
    }
}

/// The text that events carry, one behind the other.
pub open spec fn streamed_text(es: Seq<StreamModel>) -> Seq<char> {
    es.flat_map(
        |e: StreamModel|
            match e {
                StreamModel::TextDelta(t) => t,
                _ => Seq::<char>::empty(),
            },
    )
}

/// The reasoning that events carry, one behind the other.
pub open spec fn streamed_thinking(es: Seq<StreamModel>) -> Seq<char> {
    es.flat_map(
        |e: StreamModel|
            match e {
                StreamModel::ThinkingDelta(t) => t,
                _ => Seq::<char>::empty(),
            },
    )
}

/// The arguments of tool calls that events carry, one behind the other.
pub open spec fn streamed_arguments(es: Seq<StreamModel>) -> Seq<char> {
    es.flat_map(
        |e: StreamModel|
            match e {
                StreamModel::ToolCallDelta(t) => t,
                _ => Seq::<char>::empty(),
            },
    )
}

/// What events carry that come behind others.
pub proof fn lemma_streamed_add(a: Seq<StreamModel>, b: Seq<StreamModel>)
    ensures
        streamed_text(a + b) == streamed_text(a) + streamed_text(b),
        streamed_thinking(a + b) == streamed_thinking(a) + streamed_thinking(b),
        streamed_arguments(a + b) == streamed_arguments(a) + streamed_arguments(b),
{
    text::lemma_flat_map_add(
        a,
        b,
        |e: StreamModel|
            match e {
                StreamModel::TextDelta(t) => t,
                _ => Seq::<char>::empty(),
            },
    );
    text::lemma_flat_map_add(
        a,
        b,
        |e: StreamModel|
            match e {
                StreamModel::ThinkingDelta(t) => t,
                _ => Seq::<char>::empty(),
            },
    );
    text::lemma_flat_map_add(
        a,
        b,
        |e: StreamModel|
            match e {
                StreamModel::ToolCallDelta(t) => t,
                _ => Seq::<char>::empty(),
            },
    );
}

/// What a single event carries.
pub proof fn lemma_streamed_one(e: StreamModel)
    ensures
        streamed_text(seq![e]) == (match e {
            StreamModel::TextDelta(t) => t,
            _ => Seq::<char>::empty(),
        }),
        streamed_thinking(seq![e]) == (match e {
            StreamModel::ThinkingDelta(t) => t,
            _ => Seq::<char>::empty(),
        }),
        streamed_arguments(seq![e]) == (match e {
            StreamModel::ToolCallDelta(t) => t,
            _ => Seq::<char>::empty(),
        }),
        streamed_text(Seq::empty()) == Seq::<char>::empty(),
        streamed_thinking(Seq::empty()) == Seq::<char>::empty(),
        streamed_arguments(Seq::empty()) == Seq::<char>::empty(),
{
    let ft = |e: StreamModel|
        match e {
            StreamModel::TextDelta(t) => t,
            _ => Seq::<char>::empty(),
        };
    let fk = |e: StreamModel|
        match e {
            StreamModel::ThinkingDelta(t) => t,
            _ => Seq::<char>::empty(),
        };
    let fa = |e: StreamModel|
        match e {
            StreamModel::ToolCallDelta(t) => t,
            _ => Seq::<char>::empty(),
        };
    let none = Seq::<StreamModel>::empty();
    assert(seq![e].drop_last() =~= none);
    assert(none.map_values(ft) =~= Seq::empty());
    assert(none.map_values(fk) =~= Seq::empty());
    assert(none.map_values(fa) =~= Seq::empty());
    text::lemma_flat_map_last(seq![e], ft);
    text::lemma_flat_map_last(seq![e], fk);
    text::lemma_flat_map_last(seq![e], fa);
    assert(streamed_text(seq![e]) =~= ft(e));
    assert(streamed_thinking(seq![e]) =~= fk(e));
    assert(streamed_arguments(seq![e]) =~= fa(e));
}

/// The pause grows from half a second and doubles with every attempt.
pub proof fn law_pauses_double(n: int)
    requires
        n >= 1,
    ensures
        backoff_millis(1) == 500,
        backoff_millis(n + 1) == 2 * backoff_millis(n),
{
}

/// A server that failed, was busy or was too slow is asked again, and so is one that
/// was not reached; one that refused the request is not.
pub proof fn law_refusals_are_final(api: ApiError, timeout: bool, connect: bool, request: bool)
    ensures
        CallError::Api(api).retryable() == (match api.status {
            None => true,
            Some(s) => 500 <= s <= 599 || s == 408 || s == 409 || s == 429,
        }),
        api.status matches Some(s) && 400 <= s < 500 && s != 408 && s != 409 && s != 429
            ==> !CallError::Api(api).retryable(),
        (CallError::Transport { timeout, connect, request }).retryable() <==> timeout || connect
            || request,
{
}

/// A server that asks to wait so many seconds is taken at its word.
pub proof fn law_asked_wait_is_read(secs: nat)
    requires
        secs <= u64::MAX,
    ensures
        asked_secs(Some(text::decimal(secs))) == Some(secs),
        asked_secs(None) is None,
{
    let d = text::decimal(secs);
    text::lemma_decimal_value(secs);
    text::law_numbers_are_read_back(secs, u64::MAX as nat);
    assert(text::is_digit(d[0]) && text::is_digit(d[d.len() - 1]));
    assert(text::trim_start(d) == d);
    assert(text::trim_end(d) == d);
}

} // verus!
