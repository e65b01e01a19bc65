# RustClaw

A personal AI assistant for your own hardware: one program that chats in the
terminal, serves a web page and bridges Telegram, with a handful of tools and
transcripts kept as append-only JSON lines.

The logic is a Verus library: every function in `src/` states what it does in
`requires` and `ensures`, and is proved. Input and output live around it.

## Layout

- `src/` the verified library
  - `text`, `json`, `paths`: strings, JSON values, file paths
  - `types`, `transcript`, `session`: messages, the lines that store them, and
    conversations with their titles, ids and listing
  - `llm`: request bodies and stream decoding for Anthropic and for
    OpenAI-compatible servers, and when a call is made again
  - `compact`: when and where a long conversation is cut, and its summary
  - `agent`: a turn as a state machine, from report to next action
  - `tools`: what each tool is asked and what it answers
  - `server`: access control, answers, events, the Markdown export
  - `channels`, `repl`, `cli`, `config`: Telegram, terminal, command line,
    configuration
- `app/` the program: files, processes, HTTP, the terminal
- `tests/` tests of the library

What the library takes on trust is small and marked: a few functions of the
standard library, `serde_json` for reading and writing JSON text, `globset` and
`regex` for matching. Each has its contract next to the call.

## Laws

Properties that span functions stand as public proof functions named `law_..`
next to what they speak of: that a stored entry is read back, that ids never
collide within a second, that a rewritten transcript keeps its title, that every
turn ends with its closing event and shows it once, that no tool result is left
without its call, that tool calls of a stream never overlap, that tags in what the
assistant wrote are exported inert outside of blocks and closed spans of code, and
more.

## Use

```bash
rustclaw config --init     # write ~/.rustclaw/config.toml
rustclaw                   # terminal chat (default)
rustclaw serve             # web UI on :8080
rustclaw telegram          # Telegram bot bridge
rustclaw sessions          # list stored transcripts
rustclaw token             # print the access token, creating one if need be
```

The web page is served from `assets/` in the home directory.
