//! A personal AI assistant: the logic of its conversations, tools, model
//! interfaces, sessions and channels, free of input and output.
pub mod agent;
pub mod channels;
pub mod cli;
pub mod compact;
pub mod config;
pub mod json;
pub mod llm;
pub mod paths;
pub mod prompt;
pub mod repl;
pub mod server;
pub mod session;
pub mod text;
pub mod tools;
pub mod transcript;
pub mod types;
