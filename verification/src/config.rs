//! Configuration, as `config.toml` in the home directory holds it.
//!
//! Compiled defaults come first, then the file, then the environment. API keys
//! are read from the environment only, so the file stays safe to copy around.
use crate::json::Json;
use crate::paths;
use crate::prompt::DEFAULT_SYSTEM_PROMPT;
use crate::text;
use vstd::prelude::*;

verus! {

/// Which interface the model is reached through.
#[derive(Debug, Clone, Copy, PartialEq, Eq, Structural)]
pub enum Backend {
    /// Anthropic Messages API.
    Anthropic,
    /// Any OpenAI-compatible `/v1/chat/completions` endpoint.
    OpenaiCompat,
}

#[derive(Debug, Clone, PartialEq)]
pub struct ModelConfig {
    pub backend: Backend,
    pub base_url: String,
    pub model: String,
    /// Name of the environment variable holding the API key. Empty means no
    /// authentication, the normal case for a local server.
    pub api_key_env: String,
    pub max_tokens: u32,
    pub context_window: u32,
    /// The JSON number sent as `temperature`; left out of the request when unset.
    pub temperature: Option<Json>,
    /// Ask for exact token counts; off for a server that rejects the field.
    pub stream_usage: bool,
}

impl ModelConfig {
    /// A local server that needs no key and no network.
    pub open spec fn is_default(self) -> bool {
        &&& self.backend == Backend::OpenaiCompat
        &&& self.base_url@ == "http://127.0.0.1:11434/v1"@
        &&& self.model@ == "qwen2.5:3b"@
        &&& self.api_key_env@ == ""@
        &&& self.max_tokens == 4096
        &&& self.context_window == 32768
        &&& self.temperature is None
        &&& self.stream_usage
    }
}

impl Default for ModelConfig {
    fn default() -> (r: ModelConfig)
        ensures
            r.is_default(),
    {
        ModelConfig {
            backend: Backend::OpenaiCompat,
            base_url: "http://127.0.0.1:11434/v1".to_owned(),
            model: "qwen2.5:3b".to_owned(),
            api_key_env: "".to_owned(),
            max_tokens: 4096,
            context_window: 32768,
            temperature: None,
            stream_usage: true,
        }
    }
}

/// A value of the environment, where it is set and not empty.
pub open spec fn nonempty(value: Option<Seq<char>>) -> Option<Seq<char>> {
    match value {
        Some(v) if v.len() > 0 => Some(v),
        _ => None,
    }
}

fn keep_nonempty(value: Option<String>) -> (r: Option<String>)
    ensures
        text::opt(r) == nonempty(text::opt(value)),
{
    match value {
        Some(v) => if v.as_str().is_empty() {
            None
        } else {
            Some(v)
        },
        None => None,
    }
}

impl ModelConfig {
    /// The API key, given what the environment holds under `api_key_env`.
    pub fn api_key(&self, value: Option<String>) -> (r: Option<String>)
        ensures
            text::opt(r) == (if self.api_key_env@.len() == 0 {
                None
            } else {
                nonempty(text::opt(value))
            }),
    {
        if self.api_key_env.as_str().is_empty() {
            None
        } else {
            keep_nonempty(value)
        }
    }
}

#[derive(Debug, Clone, PartialEq)]
pub struct AgentConfig {
    pub system_prompt: String,
    /// Hard cap on model round-trips per turn.
    pub max_iterations: u32,
    /// Seconds before an `exec` call is killed.
    pub exec_timeout_secs: u64,
    /// Tool output beyond this many bytes is spilled to disk.
    pub max_tool_output_bytes: usize,
}

impl AgentConfig {
    /// What holds where the file says nothing.
    pub open spec fn is_default(self) -> bool {
        &&& self.system_prompt@ == DEFAULT_SYSTEM_PROMPT@
        &&& self.max_iterations == 50
        &&& self.exec_timeout_secs == 120
        &&& self.max_tool_output_bytes == 32768
    }
}

impl Default for AgentConfig {
    fn default() -> (r: AgentConfig)
        ensures
            r.is_default(),
    {
        AgentConfig {
            system_prompt: DEFAULT_SYSTEM_PROMPT.to_owned(),
            max_iterations: 50,
            exec_timeout_secs: 120,
            max_tool_output_bytes: 32768,
        }
    }
}

#[derive(Debug, Clone, PartialEq)]
pub struct ServerConfig {
    pub bind: String,
    pub port: u16,
}

impl ServerConfig {
    /// Reachable from the local network.
    pub open spec fn is_default(self) -> bool {
        &&& self.bind@ == "0.0.0.0"@
        &&& self.port == 8080
    }
}

impl Default for ServerConfig {
    fn default() -> (r: ServerConfig)
        ensures
            r.is_default(),
    {
        ServerConfig { bind: "0.0.0.0".to_owned(), port: 8080 }
    }
}

#[derive(Debug, Clone, PartialEq)]
pub struct TelegramConfig {
    pub token_env: String,
    /// Chats allowed to talk to the agent. Empty allows everyone.
    pub allowed_chat_ids: Vec<i64>,
    /// How long one poll for updates may take.
    pub poll_timeout_secs: u32,
}

impl TelegramConfig {
    /// What holds where the file says nothing.
    pub open spec fn is_default(self) -> bool {
        &&& self.token_env@ == "TELEGRAM_BOT_TOKEN"@
        &&& self.allowed_chat_ids@ == Seq::<i64>::empty()
        &&& self.poll_timeout_secs == 50
    }
}

impl Default for TelegramConfig {
    fn default() -> (r: TelegramConfig)
        ensures
            r.is_default(),
    {
        TelegramConfig {
            token_env: "TELEGRAM_BOT_TOKEN".to_owned(),
            allowed_chat_ids: Vec::new(),
            poll_timeout_secs: 50,
        }
    }
}

impl TelegramConfig {
    /// The bot token, given what the environment holds under `token_env`.
    pub fn token(&self, value: Option<String>) -> (r: Option<String>)
        ensures
            text::opt(r) == nonempty(text::opt(value)),
    {
        keep_nonempty(value)
    }
}

#[derive(Debug, Clone, PartialEq)]
pub struct Config {
    pub model: ModelConfig,
    pub agent: AgentConfig,
    pub server: ServerConfig,
    pub telegram: TelegramConfig,
}

impl Default for Config {
    fn default() -> (r: Config)
        ensures
            r.model.is_default(),
            r.agent.is_default(),
            r.server.is_default(),
            r.telegram.is_default(),
    {
        Config {
            model: ModelConfig::default(),
            agent: AgentConfig::default(),
            server: ServerConfig::default(),
            telegram: TelegramConfig::default(),
        }
    }
}

/// `new` where it is given, else what was there before.
pub open spec fn overridden(before: Seq<char>, new: Option<Seq<char>>) -> Seq<char> {
    match new {
        Some(v) => v,
        None => before,
    }
}

impl Config {
    /// What the environment holds, applied after the file so that it always wins.
    /// A port that is no number between 0 and 65535 is passed over.
    pub fn apply_env(
        &mut self,
        base_url: Option<String>,
        model: Option<String>,
        port: Option<String>,
    )
        ensures
            final(self).model.base_url@ == overridden(
                old(self).model.base_url@,
                text::opt(base_url),
            ),
            final(self).model.model@ == overridden(old(self).model.model@, text::opt(model)),
            final(self).server.port == (match text::opt(port) {
                Some(p) => match text::parsed(p, 65535) {
                    Some(n) => n,
                    None => old(self).server.port as nat,
                },
                None => old(self).server.port as nat,
            }),
            final(self).model.backend == old(self).model.backend,
            final(self).model.api_key_env == old(self).model.api_key_env,
            final(self).model.max_tokens == old(self).model.max_tokens,
            final(self).model.context_window == old(self).model.context_window,
            final(self).model.temperature == old(self).model.temperature,
            final(self).model.stream_usage == old(self).model.stream_usage,
            final(self).server.bind == old(self).server.bind,
            final(self).agent == old(self).agent,
            final(self).telegram == old(self).telegram,
    {
        if let Some(v) = base_url {
            self.model.base_url = v;
        }
        if let Some(v) = model {
            self.model.model = v;
        }
        if let Some(v) = port {
            if let Some(p) = text::parse_decimal(v.as_str(), 65535) {
                self.server.port = p as u16;
            }
        }
    }
}

/// Why there is no home directory.
#[derive(Debug, Clone, Copy, PartialEq, Eq, Structural)]
pub enum ConfigError {
    HomeNotSet,
}

impl ConfigError {
    pub fn message(&self) -> (r: &'static str)
        ensures
            r@ == "HOME is not set"@,
    {
        "HOME is not set"
    }
}

/// `~/.rustclaw`, or what `RUSTCLAW_HOME` says.
pub open spec fn home_of(
    rustclaw_home: Option<Seq<char>>,
    home: Option<Seq<char>>,
) -> Option<Seq<char>> {
    match rustclaw_home {
        Some(dir) => Some(dir),
        None => match home {
            Some(h) => Some(paths::joined(h, ".rustclaw"@)),
            None => None,
        },
    }
}

/// The home directory, given what the environment holds under `RUSTCLAW_HOME`
/// and `HOME`.
pub fn home_dir(rustclaw_home: Option<String>, home: Option<String>) -> (r: Result<
    String,
    ConfigError,
>)
    ensures
        match r {
            Ok(dir) => home_of(text::opt(rustclaw_home), text::opt(home)) == Some(dir@),
            Err(_) => home_of(text::opt(rustclaw_home), text::opt(home)) is None,
        },
{
    if let Some(dir) = rustclaw_home {
        return Ok(dir);
    }
    match home {
        Some(h) => Ok(paths::join(h.as_str(), ".rustclaw")),
        None => Err(ConfigError::HomeNotSet),
    }
}

/// Where `config.toml` lies, given what the environment holds under
/// `RUSTCLAW_HOME` and `HOME`.
pub fn config_path(rustclaw_home: Option<String>, home: Option<String>) -> (r: Result<
    String,
    ConfigError,
>)
    ensures
        match r {
            Ok(path) => match home_of(text::opt(rustclaw_home), text::opt(home)) {
                Some(dir) => path@ == paths::joined(dir, "config.toml"@),
                None => false,
            },
            Err(_) => home_of(text::opt(rustclaw_home), text::opt(home)) is None,
        },
{
    match home_dir(rustclaw_home, home) {
        Ok(dir) => Ok(paths::join(dir.as_str(), "config.toml")),
        Err(e) => Err(e),
    }
}

/// An empty setting counts as none.
pub proof fn law_empty_is_none(value: Seq<char>)
    ensures
        nonempty(None) is None,
        value.len() == 0 ==> nonempty(Some(value)) is None,
        value.len() > 0 ==> nonempty(Some(value)) == Some(value),
{
}

/// What is set in the environment goes before what is in the file, and the directory that
/// is named before the one in the home directory.
pub proof fn law_environment_goes_first(before: Seq<char>, new: Seq<char>, home: Seq<char>)
    ensures
        overridden(before, Some(new)) == new,
        overridden(before, None) == before,
        forall|h: Option<Seq<char>>| #[trigger] home_of(Some(new), h) == Some(new),
        home_of(None, Some(home)) == Some(paths::joined(home, ".rustclaw"@)),
        home_of(None, None) is None,
{
}

} // verus!
