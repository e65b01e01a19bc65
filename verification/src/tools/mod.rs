//! The built-in tools: what each one advertises, what it makes of its
//! arguments, and what it answers. The work on files, processes and the network
//! is done by the caller.
pub mod edit;
pub mod exec;
pub mod fetch;
pub mod fs;
pub mod search;

use crate::json;
use crate::json::{Json, JsonModel, JsonObject};
use crate::llm;
use crate::llm::ToolSchema;
use crate::paths;
use crate::text;
use vstd::prelude::*;

verus! {

broadcast use vstd::std_specs::vec::axiom_spec_len;

/// What a tool answers.
#[derive(Debug, PartialEq)]
pub struct ToolOutput {
    pub content: String,
    pub is_error: bool,
}

/// What a [`ToolOutput`] holds.
pub struct OutputModel {
    pub content: Seq<char>,
    pub is_error: bool,
}

impl OutputModel {
    pub open spec fn ok(content: Seq<char>) -> OutputModel {
        OutputModel { content, is_error: false }
    }

    pub open spec fn err(content: Seq<char>) -> OutputModel {
        OutputModel { content, is_error: true }
    }
}

impl ToolOutput {
    pub open spec fn view(&self) -> OutputModel {
        OutputModel { content: self.content@, is_error: self.is_error }
    }

    pub fn ok(content: String) -> (r: ToolOutput)
        ensures
            r@ == OutputModel::ok(content@),
    {
        ToolOutput { content, is_error: false }
    }

    pub fn err(content: String) -> (r: ToolOutput)
        ensures
            r@ == OutputModel::err(content@),
    {
        ToolOutput { content, is_error: true }
    }
}

/// Which tool.
#[derive(Debug, Clone, Copy, PartialEq, Eq, Structural)]
pub enum ToolKind {
    Exec,
    Read,
    Write,
    Edit,
    Ls,
    Glob,
    Grep,
    WebFetch,
}

/// A tool as it is registered.
#[derive(Debug, Clone, Copy, PartialEq, Eq)]
pub struct ToolSpec {
    pub kind: ToolKind,
    pub name: &'static str,
    pub description: &'static str,
}

impl ToolKind {
    /// The name under which the model calls the tool.
    pub open spec fn name(self) -> Seq<char> {
        match self {
            ToolKind::Exec => "exec"@,
            ToolKind::Read => "read"@,
            ToolKind::Write => "write"@,
            ToolKind::Edit => "edit"@,
            ToolKind::Ls => "ls"@,
            ToolKind::Glob => "glob"@,
            ToolKind::Grep => "grep"@,
            ToolKind::WebFetch => "web_fetch"@,
        }
    }

    pub open spec fn description(self) -> Seq<char> {
        match self {
            ToolKind::Exec => exec::DESCRIPTION@,
            ToolKind::Read => fs::READ_DESCRIPTION@,
            ToolKind::Write => fs::WRITE_DESCRIPTION@,
            ToolKind::Edit => edit::DESCRIPTION@,
            ToolKind::Ls => fs::LS_DESCRIPTION@,
            ToolKind::Glob => search::GLOB_DESCRIPTION@,
            ToolKind::Grep => search::GREP_DESCRIPTION@,
            ToolKind::WebFetch => fetch::DESCRIPTION@,
        }
    }

    /// The JSON schema of the tool's arguments.
    pub open spec fn schema_model(self) -> JsonModel {
        match self {
            ToolKind::Exec => exec::schema_model(),
            ToolKind::Read => fs::read_schema_model(),
            ToolKind::Write => fs::write_schema_model(),
            ToolKind::Edit => edit::schema_model(),
            ToolKind::Ls => fs::ls_schema_model(),
            ToolKind::Glob => search::glob_schema_model(),
            ToolKind::Grep => search::grep_schema_model(),
            ToolKind::WebFetch => fetch::schema_model(),
        }
    }
}

/// The tools, in the order in which they are advertised.
pub open spec fn kinds() -> Seq<ToolKind> {
    seq![
        ToolKind::Exec,
        ToolKind::Read,
        ToolKind::Write,
        ToolKind::Edit,
        ToolKind::Ls,
        ToolKind::Glob,
        ToolKind::Grep,
        ToolKind::WebFetch,
    ]
}

impl ToolSpec {
    /// The name and the description are those of the tool.
    pub open spec fn is_for(&self, kind: ToolKind) -> bool {
        self.kind == kind && self.name@ == kind.name() && self.description@ == kind.description()
    }

    fn of(kind: ToolKind) -> (r: ToolSpec)
        ensures
            r.is_for(kind),
    {
        match kind {
            ToolKind::Exec => ToolSpec { kind, name: "exec", description: exec::DESCRIPTION },
            ToolKind::Read => ToolSpec { kind, name: "read", description: fs::READ_DESCRIPTION },
            ToolKind::Write => ToolSpec { kind, name: "write", description: fs::WRITE_DESCRIPTION },
            ToolKind::Edit => ToolSpec { kind, name: "edit", description: edit::DESCRIPTION },
            ToolKind::Ls => ToolSpec { kind, name: "ls", description: fs::LS_DESCRIPTION },
            ToolKind::Glob => ToolSpec {
                kind,
                name: "glob",
                description: search::GLOB_DESCRIPTION,
            },
            ToolKind::Grep => ToolSpec {
                kind,
                name: "grep",
                description: search::GREP_DESCRIPTION,
            },
            ToolKind::WebFetch => ToolSpec {
                kind,
                name: "web_fetch",
                description: fetch::DESCRIPTION,
            },
        }
    }

    /// The JSON schema of the tool's arguments.
    pub fn schema(&self) -> (r: Json)
        ensures
            r@ == self.kind.schema_model(),
    {
        match self.kind {
            ToolKind::Exec => exec::schema(),
            ToolKind::Read => fs::read_schema(),
            ToolKind::Write => fs::write_schema(),
            ToolKind::Edit => edit::schema(),
            ToolKind::Ls => fs::ls_schema(),
            ToolKind::Glob => search::glob_schema(),
            ToolKind::Grep => search::grep_schema(),
            ToolKind::WebFetch => fetch::schema(),
        }
    }
}

/// All tools.
pub fn tools() -> (r: Vec<ToolSpec>)
    ensures
        r@.len() == kinds().len(),
        forall|i: int| 0 <= i < kinds().len() ==> (#[trigger] r@[i]).is_for(kinds()[i]),
{
    let mut out: Vec<ToolSpec> = Vec::new();
    out.push(ToolSpec::of(ToolKind::Exec));
    out.push(ToolSpec::of(ToolKind::Read));
    out.push(ToolSpec::of(ToolKind::Write));
    out.push(ToolSpec::of(ToolKind::Edit));
    out.push(ToolSpec::of(ToolKind::Ls));
    out.push(ToolSpec::of(ToolKind::Glob));
    out.push(ToolSpec::of(ToolKind::Grep));
    out.push(ToolSpec::of(ToolKind::WebFetch));
    out
}

/// The tool that is called `name`.
pub fn find(name: &str) -> (r: Option<ToolSpec>)
    ensures
        match r {
            Some(t) => kinds().contains(t.kind) && t.is_for(t.kind) && t.name@ == name@,
            None => forall|i: int| 0 <= i < kinds().len() ==> (#[trigger] kinds()[i]).name() != name@,
        },
{
    let all = tools();
    let mut i: usize = 0;
    while i < all.len()
        invariant
            i <= all@.len(),
            all@.len() == kinds().len(),
            forall|j: int| 0 <= j < kinds().len() ==> (#[trigger] all@[j]).is_for(kinds()[j]),
            forall|j: int| 0 <= j < i ==> (#[trigger] kinds()[j]).name() != name@,
        decreases all@.len() - i,
    {
        assert(all@[i as int].is_for(kinds()[i as int]));
        if text::str_eq(all[i].name, name) {
            assert(kinds()[i as int] == all@[i as int].kind);
            return Some(all[i]);
        }
        i += 1;
    }
    None
}

/// The names of two tools differ.
pub proof fn law_names_are_unique(i: int, j: int)
    requires
        0 <= i < j < kinds().len(),
    ensures
        kinds()[i].name() != kinds()[j].name(),
{
    reveal_strlit("exec");
    reveal_strlit("read");
    reveal_strlit("write");
    reveal_strlit("edit");
    reveal_strlit("ls");
    reveal_strlit("glob");
    reveal_strlit("grep");
    reveal_strlit("web_fetch");
    assert("exec"@.len() == 4 && "read"@.len() == 4 && "write"@.len() == 5 && "edit"@.len() == 4
        && "ls"@.len() == 2 && "glob"@.len() == 4 && "grep"@.len() == 4 && "web_fetch"@.len() == 9);
    assert("exec"@[0] == 'e' && "read"@[0] == 'r' && "edit"@[0] == 'e' && "glob"@[0] == 'g'
        && "grep"@[0] == 'g');
    assert("exec"@[1] == 'x' && "edit"@[1] == 'd' && "glob"@[1] == 'l' && "grep"@[1] == 'r');
}

/// Every tool advertises an object with properties.
pub proof fn law_schemas_are_objects(kind: ToolKind)
    ensures
        kind.schema_model().str_at("type"@) == Some("object"@),
        kind.schema_model().get("properties"@) is Some,
{
    broadcast use json::lemma_get_with;

    reveal_strlit("type");
    reveal_strlit("properties");
    reveal_strlit("required");
    assert("type"@.len() == 4 && "properties"@.len() == 10 && "required"@.len() == 8);
}

/// What is advertised to the model.
pub fn schemas() -> (r: Vec<ToolSchema>)
    ensures
        r@.len() == kinds().len(),
        forall|i: int|
            0 <= i < kinds().len() ==> llm::schema_of(#[trigger] r@[i]) == (llm::SchemaModel {
                name: kinds()[i].name(),
                description: kinds()[i].description(),
                input_schema: kinds()[i].schema_model(),
            }),
{
    let all = tools();
    let mut out: Vec<ToolSchema> = Vec::new();
    let mut i: usize = 0;
    while i < all.len()
        invariant
            i <= all@.len(),
            all@.len() == kinds().len(),
            forall|j: int| 0 <= j < kinds().len() ==> (#[trigger] all@[j]).is_for(kinds()[j]),
            out@.len() == i,
            forall|j: int|
                0 <= j < i ==> llm::schema_of(#[trigger] out@[j]) == (llm::SchemaModel {
                    name: kinds()[j].name(),
                    description: kinds()[j].description(),
                    input_schema: kinds()[j].schema_model(),
                }),
        decreases all@.len() - i,
    {
        assert(all@[i as int].is_for(kinds()[i as int]));
        out.push(
            ToolSchema {
                name: all[i].name,
                description: all[i].description,
                input_schema: all[i].schema(),
            },
        );
        i += 1;
    }
    out
}

/// What is answered to a call of a tool that is not there.
pub open spec fn unknown_tool(name: Seq<char>) -> OutputModel {
    OutputModel::err(
        "unknown tool `"@ + name
            + "`; available: exec, read, write, edit, ls, glob, grep, web_fetch"@,
    )
}

/// What is answered to a call of a tool that is not there.
pub fn unknown(name: &str) -> (r: ToolOutput)
    ensures
        r@ == unknown_tool(name@),
{
    let mut out = "unknown tool `".to_owned();
    out.push_str(name);
    out.push_str("`; available: exec, read, write, edit, ls, glob, grep, web_fetch");
    ToolOutput::err(out)
}

/// What is answered where a string argument is missing.
pub open spec fn missing(key: Seq<char>) -> OutputModel {
    OutputModel::err("missing required string argument `"@ + key + "`"@)
}

/// A string argument that must be there.
pub fn arg_str<'v>(args: &'v Json, key: &str) -> (r: Result<&'v str, ToolOutput>)
    ensures
        match r {
            Ok(s) => args@.str_at(key@) == Some(s@),
            Err(e) => args@.str_at(key@) is None && e@ == missing(key@),
        },
{
    match args.str_at(key) {
        Some(s) => Ok(s),
        None => {
            let mut out = "missing required string argument `".to_owned();
            out.push_str(key);
            out.push_str("`");
            Err(ToolOutput::err(out))
        },
    }
}

/// A possibly relative path, seen from the directory `cwd`.
pub fn resolve(cwd: &str, path: &str) -> (r: String)
    ensures
        r@ == paths::joined(cwd@, path@),
{
    paths::join(cwd, path)
}

/// The directory an argument names, else the session's own.
pub open spec fn dir_arg(args: JsonModel, key: Seq<char>, cwd: Seq<char>) -> Seq<char> {
    match args.str_at(key) {
        Some(d) => paths::joined(cwd, d),
        None => cwd,
    }
}

/// The directory an argument names, else the session's own.
pub(crate) fn resolve_arg(args: &Json, key: &str, cwd: &str) -> (r: String)
    ensures
        r@ == dir_arg(args@, key@, cwd@),
{
    match args.str_at(key) {
        Some(d) => resolve(cwd, d),
        None => cwd.to_owned(),
    }
}

/// What is answered where something on disk fails: which operation, on what, and
/// the reason the system gave.
pub open spec fn cannot_do(what: Seq<char>, path: Seq<char>, reason: Seq<char>) -> OutputModel {
    OutputModel::err("cannot "@ + what + " "@ + path + ": "@ + reason)
}

/// What is answered where something on disk fails.
pub fn cannot(what: &str, path: &str, reason: &str) -> (r: ToolOutput)
    ensures
        r@ == cannot_do(what@, path@, reason@),
{
    let mut out = "cannot ".to_owned();
    out.push_str(what);
    out.push_str(" ");
    out.push_str(path);
    out.push_str(": ");
    out.push_str(reason);
    ToolOutput::err(out)
}

/// The schema of one argument.
pub open spec fn property(kind: Seq<char>, description: Seq<char>) -> JsonModel {
    JsonModel::object().with("type"@, JsonModel::Str(kind)).with(
        "description"@,
        JsonModel::Str(description),
    )
}

pub(crate) fn make_property(kind: &str, description: &str) -> (r: Json)
    ensures
        r@ == property(kind@, description@),
{
    Json::Object(
        JsonObject::new().with("type", Json::string(kind)).with(
            "description",
            Json::string(description),
        ),
    )
}

/// The schema of an argument list whose members `required` must be there.
pub open spec fn object_schema(properties: JsonModel, required: Seq<JsonModel>) -> JsonModel {
    JsonModel::object().with("type"@, JsonModel::Str("object"@)).with(
        "properties"@,
        properties,
    ).with("required"@, JsonModel::Array(required))
}

pub(crate) fn make_schema(properties: JsonObject, required: Vec<Json>) -> (r: Json)
    ensures
        r@ == object_schema(JsonModel::Object(properties@), json::models(required@)),
{
    Json::Object(
        JsonObject::new().with("type", Json::string("object")).with(
            "properties",
            Json::Object(properties),
        ).with("required", Json::array(required)),
    )
}

/// A tool works where it is told to, below the session's directory unless the path begins
/// at the root, and in the session's directory where it is told nothing.
pub proof fn law_tools_work_below_the_session(args: JsonModel, key: Seq<char>, cwd: Seq<char>)
    ensures
        args.str_at(key) is None ==> dir_arg(args, key, cwd) == cwd,
        args.str_at(key) matches Some(d) ==> dir_arg(args, key, cwd) == (if d.len() > 0 && d[0]
            == '/' {
            d
        } else if cwd.len() == 0 || cwd.last() == '/' {
            cwd + d
        } else {
            cwd + seq!['/'] + d
        }),
{
    if let Some(d) = args.str_at(key) {
        paths::law_joined_path_is_below_its_base(cwd, d);
    }
}

/// The keys differ from each other.
proof fn lemma_argument_names()
    ensures
        "command"@ != "content"@,
        "command"@ != "cwd"@,
        "command"@ != "ignore_case"@,
        "command"@ != "include"@,
        "command"@ != "limit"@,
        "command"@ != "new"@,
        "command"@ != "offset"@,
        "command"@ != "old"@,
        "command"@ != "path"@,
        "command"@ != "pattern"@,
        "command"@ != "replace_all"@,
        "command"@ != "url"@,
        "command"@ != "type"@,
        "command"@ != "description"@,
        "command"@ != "properties"@,
        "command"@ != "required"@,
        "content"@ != "cwd"@,
        "content"@ != "ignore_case"@,
        "content"@ != "include"@,
        "content"@ != "limit"@,
        "content"@ != "new"@,
        "content"@ != "offset"@,
        "content"@ != "old"@,
        "content"@ != "path"@,
        "content"@ != "pattern"@,
        "content"@ != "replace_all"@,
        "content"@ != "url"@,
        "content"@ != "type"@,
        "content"@ != "description"@,
        "content"@ != "properties"@,
        "content"@ != "required"@,
        "cwd"@ != "ignore_case"@,
        "cwd"@ != "include"@,
        "cwd"@ != "limit"@,
        "cwd"@ != "new"@,
        "cwd"@ != "offset"@,
        "cwd"@ != "old"@,
        "cwd"@ != "path"@,
        "cwd"@ != "pattern"@,
        "cwd"@ != "replace_all"@,
        "cwd"@ != "url"@,
        "cwd"@ != "type"@,
        "cwd"@ != "description"@,
        "cwd"@ != "properties"@,
        "cwd"@ != "required"@,
        "ignore_case"@ != "include"@,
        "ignore_case"@ != "limit"@,
        "ignore_case"@ != "new"@,
        "ignore_case"@ != "offset"@,
        "ignore_case"@ != "old"@,
        "ignore_case"@ != "path"@,
        "ignore_case"@ != "pattern"@,
        "ignore_case"@ != "replace_all"@,
        "ignore_case"@ != "url"@,
        "ignore_case"@ != "type"@,
        "ignore_case"@ != "description"@,
        "ignore_case"@ != "properties"@,
        "ignore_case"@ != "required"@,
        "include"@ != "limit"@,
        "include"@ != "new"@,
        "include"@ != "offset"@,
        "include"@ != "old"@,
        "include"@ != "path"@,
        "include"@ != "pattern"@,
        "include"@ != "replace_all"@,
        "include"@ != "url"@,
        "include"@ != "type"@,
        "include"@ != "description"@,
        "include"@ != "properties"@,
        "include"@ != "required"@,
        "limit"@ != "new"@,
        "limit"@ != "offset"@,
        "limit"@ != "old"@,
        "limit"@ != "path"@,
        "limit"@ != "pattern"@,
        "limit"@ != "replace_all"@,
        "limit"@ != "url"@,
        "limit"@ != "type"@,
        "limit"@ != "description"@,
        "limit"@ != "properties"@,
        "limit"@ != "required"@,
        "new"@ != "offset"@,
        "new"@ != "old"@,
        "new"@ != "path"@,
        "new"@ != "pattern"@,
        "new"@ != "replace_all"@,
        "new"@ != "url"@,
        "new"@ != "type"@,
        "new"@ != "description"@,
        "new"@ != "properties"@,
        "new"@ != "required"@,
        "offset"@ != "old"@,
        "offset"@ != "path"@,
        "offset"@ != "pattern"@,
        "offset"@ != "replace_all"@,
        "offset"@ != "url"@,
        "offset"@ != "type"@,
        "offset"@ != "description"@,
        "offset"@ != "properties"@,
        "offset"@ != "required"@,
        "old"@ != "path"@,
        "old"@ != "pattern"@,
        "old"@ != "replace_all"@,
        "old"@ != "url"@,
        "old"@ != "type"@,
        "old"@ != "description"@,
        "old"@ != "properties"@,
        "old"@ != "required"@,
        "path"@ != "pattern"@,
        "path"@ != "replace_all"@,
        "path"@ != "url"@,
        "path"@ != "type"@,
        "path"@ != "description"@,
        "path"@ != "properties"@,
        "path"@ != "required"@,
        "pattern"@ != "replace_all"@,
        "pattern"@ != "url"@,
        "pattern"@ != "type"@,
        "pattern"@ != "description"@,
        "pattern"@ != "properties"@,
        "pattern"@ != "required"@,
        "replace_all"@ != "url"@,
        "replace_all"@ != "type"@,
        "replace_all"@ != "description"@,
        "replace_all"@ != "properties"@,
        "replace_all"@ != "required"@,
        "url"@ != "type"@,
        "url"@ != "description"@,
        "url"@ != "properties"@,
        "url"@ != "required"@,
        "type"@ != "description"@,
        "type"@ != "properties"@,
        "type"@ != "required"@,
        "description"@ != "properties"@,
        "description"@ != "required"@,
        "properties"@ != "required"@,
{
    reveal_strlit("command");
    reveal_strlit("content");
    reveal_strlit("cwd");
    reveal_strlit("ignore_case");
    reveal_strlit("include");
    reveal_strlit("limit");
    reveal_strlit("new");
    reveal_strlit("offset");
    reveal_strlit("old");
    reveal_strlit("path");
    reveal_strlit("pattern");
    reveal_strlit("replace_all");
    reveal_strlit("url");
    reveal_strlit("type");
    reveal_strlit("description");
    reveal_strlit("properties");
    reveal_strlit("required");
    assert("command"@.len() == 7);
    assert("content"@.len() == 7);
    assert("cwd"@.len() == 3);
    assert("ignore_case"@.len() == 11);
    assert("include"@.len() == 7);
    assert("limit"@.len() == 5);
    assert("new"@.len() == 3);
    assert("offset"@.len() == 6);
    assert("old"@.len() == 3);
    assert("path"@.len() == 4);
    assert("pattern"@.len() == 7);
    assert("replace_all"@.len() == 11);
    assert("url"@.len() == 3);
    assert("type"@.len() == 4);
    assert("description"@.len() == 11);
    assert("properties"@.len() == 10);
    assert("required"@.len() == 8);
    assert("command"@[2] == 'm' && "content"@[2] == 'n');
    assert("command"@[0] == 'c' && "include"@[0] == 'i');
    assert("command"@[0] == 'c' && "pattern"@[0] == 'p');
    assert("content"@[0] == 'c' && "include"@[0] == 'i');
    assert("content"@[0] == 'c' && "pattern"@[0] == 'p');
    assert("cwd"@[0] == 'c' && "new"@[0] == 'n');
    assert("cwd"@[0] == 'c' && "old"@[0] == 'o');
    assert("cwd"@[0] == 'c' && "url"@[0] == 'u');
    assert("ignore_case"@[0] == 'i' && "replace_all"@[0] == 'r');
    assert("ignore_case"@[0] == 'i' && "description"@[0] == 'd');
    assert("include"@[0] == 'i' && "pattern"@[0] == 'p');
    assert("new"@[0] == 'n' && "old"@[0] == 'o');
    assert("new"@[0] == 'n' && "url"@[0] == 'u');
    assert("old"@[0] == 'o' && "url"@[0] == 'u');
    assert("path"@[0] == 'p' && "type"@[0] == 't');
    assert("replace_all"@[0] == 'r' && "description"@[0] == 'd');
}

/// The arguments that a tool cannot do without.
pub open spec fn needed(kind: ToolKind) -> Seq<Seq<char>> {
    match kind {
        ToolKind::Exec => seq!["command"@],
        ToolKind::Read => seq!["path"@],
        ToolKind::Write => seq!["path"@, "content"@],
        ToolKind::Edit => seq!["path"@, "old"@, "new"@],
        ToolKind::Ls => Seq::empty(),
        ToolKind::Glob => seq!["pattern"@],
        ToolKind::Grep => seq!["pattern"@],
        ToolKind::WebFetch => seq!["url"@],
    }
}

/// The arguments that a tool takes, and what they are.
pub open spec fn taken(kind: ToolKind) -> Seq<(Seq<char>, Seq<char>)> {
    match kind {
        ToolKind::Exec => seq![
            ("command"@, "string"@),
            ("cwd"@, "string"@),
        ],
        ToolKind::Read => seq![
            ("path"@, "string"@),
            ("offset"@, "integer"@),
            ("limit"@, "integer"@),
        ],
        ToolKind::Write => seq![
            ("path"@, "string"@),
            ("content"@, "string"@),
        ],
        ToolKind::Edit => seq![
            ("path"@, "string"@),
            ("old"@, "string"@),
            ("new"@, "string"@),
            ("replace_all"@, "boolean"@),
        ],
        ToolKind::Ls => seq![("path"@, "string"@)],
        ToolKind::Glob => seq![
            ("pattern"@, "string"@),
            ("path"@, "string"@),
        ],
        ToolKind::Grep => seq![
            ("pattern"@, "string"@),
            ("path"@, "string"@),
            ("include"@, "string"@),
            ("ignore_case"@, "boolean"@),
        ],
        ToolKind::WebFetch => seq![("url"@, "string"@)],
    }
}

/// The schema of a tool tells every argument that it takes, what it is and what it is for,
/// and names those that it cannot do without.
pub proof fn law_schema_tells_the_arguments(kind: ToolKind, i: int)
    requires
        0 <= i < taken(kind).len(),
    ensures
        kind.schema_model().get("properties"@) matches Some(p) && p.get(taken(kind)[i].0) matches Some(
            a,
        ) && a.get("type"@) == Some(JsonModel::Str(taken(kind)[i].1)) && a.get("description"@)
            is Some,
        needed(kind).len() > 0 ==> (kind.schema_model().get("required"@) matches Some(
            JsonModel::Array(names),
        ) && names == needed(kind).map_values(|k: Seq<char>| JsonModel::Str(k))),
        needed(kind).len() == 0 ==> kind.schema_model().get("required"@) is None,
{
    broadcast use json::lemma_get_with;

    lemma_argument_names();
    let f = |k: Seq<char>| JsonModel::Str(k);
    match kind {
        ToolKind::Exec => {
            assert(needed(kind).map_values(f) =~= seq![JsonModel::Str("command"@)]);
        },
        ToolKind::Read => {
            assert(needed(kind).map_values(f) =~= seq![JsonModel::Str("path"@)]);
        },
        ToolKind::Write => {
            assert(needed(kind).map_values(f) =~= seq![JsonModel::Str("path"@), JsonModel::Str("content"@)]);
        },
        ToolKind::Edit => {
            assert(needed(kind).map_values(f) =~= seq![JsonModel::Str("path"@), JsonModel::Str("old"@), JsonModel::Str("new"@)]);
        },
        ToolKind::Glob => {
            assert(needed(kind).map_values(f) =~= seq![JsonModel::Str("pattern"@)]);
        },
        ToolKind::Grep => {
            assert(needed(kind).map_values(f) =~= seq![JsonModel::Str("pattern"@)]);
        },
        ToolKind::WebFetch => {
            assert(needed(kind).map_values(f) =~= seq![JsonModel::Str("url"@)]);
        },
        ToolKind::Ls => {},
    }
}

/// What goes wrong is told, with what it is about.
pub proof fn law_failures_are_told(
    name: Seq<char>,
    what: Seq<char>,
    path: Seq<char>,
    reason: Seq<char>,
)
    ensures
        unknown_tool(name).is_error && text::contains_str(unknown_tool(name).content, name),
        missing(name).is_error && text::contains_str(missing(name).content, name),
        cannot_do(what, path, reason).is_error && text::contains_str(
            cannot_do(what, path, reason).content,
            what + " "@ + path + ": "@ + reason,
        ),
{
    let u = unknown_tool(name).content;
    assert(u =~= "unknown tool `"@ + name
        + "`; available: exec, read, write, edit, ls, glob, grep, web_fetch"@);
    text::law_found_is_there(u, name);
    text::law_found_is_there(missing(name).content, name);
    let told = what + " "@ + path + ": "@ + reason;
    let c = cannot_do(what, path, reason).content;
    let none = Seq::<char>::empty();
    assert(c =~= "cannot "@ + told + none);
    text::law_found_is_there(c, told);
}

} // verus!
