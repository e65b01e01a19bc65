//! `read`, `write` and `ls`.
use crate::json;
use crate::json::{Json, JsonModel, JsonObject};
use crate::paths;
use crate::text;
use crate::tools;
use crate::tools::{arg_str, OutputModel, ToolOutput};
use vstd::prelude::*;

verus! {

broadcast use vstd::std_specs::vec::axiom_spec_len;

/// Files above this are refused rather than pulled into the context window.
pub const MAX_READ_BYTES: u64 = 1048576;

/// How many lines are shown where no limit is given.
pub const DEFAULT_READ_LINES: u64 = 2000;

pub const READ_DESCRIPTION: &'static str =
    "Read a text file. Returns numbered lines so they can be referenced later. \
Use `offset` and `limit` to page through a large file.";

pub const WRITE_DESCRIPTION: &'static str =
    "Write text to a file, creating parent directories and overwriting any \
existing content. To change part of a file, prefer `edit`.";

pub const LS_DESCRIPTION: &'static str =
    "List the entries of a directory, marking directories with a trailing slash.";

pub open spec fn read_schema_model() -> JsonModel {
    tools::object_schema(
        JsonModel::object().with("path"@, tools::property("string"@, "File to read."@)).with(
            "offset"@,
            tools::property("integer"@, "First line to return (1-based)."@),
        ).with("limit"@, tools::property("integer"@, "Maximum lines to return."@)),
        seq![JsonModel::Str("path"@)],
    )
}

pub(crate) fn read_schema() -> (r: Json)
    ensures
        r@ == read_schema_model(),
{
    let required: Vec<Json> = vec![Json::string("path")];
    assert(json::models(required@) =~= seq![JsonModel::Str("path"@)]);
    tools::make_schema(
        JsonObject::new().with("path", tools::make_property("string", "File to read.")).with(
            "offset",
            tools::make_property("integer", "First line to return (1-based)."),
        ).with("limit", tools::make_property("integer", "Maximum lines to return.")),
        required,
    )
}

pub open spec fn write_schema_model() -> JsonModel {
    tools::object_schema(
        JsonModel::object().with("path"@, tools::property("string"@, "File to write."@)).with(
            "content"@,
            tools::property("string"@, "Full new contents."@),
        ),
        seq![JsonModel::Str("path"@), JsonModel::Str("content"@)],
    )
}

pub(crate) fn write_schema() -> (r: Json)
    ensures
        r@ == write_schema_model(),
{
    let required: Vec<Json> = vec![Json::string("path"), Json::string("content")];
    assert(json::models(required@) =~= seq![JsonModel::Str("path"@), JsonModel::Str("content"@)]);
    tools::make_schema(
        JsonObject::new().with("path", tools::make_property("string", "File to write.")).with(
            "content",
            tools::make_property("string", "Full new contents."),
        ),
        required,
    )
}

/// Nothing is required of `ls`.
pub open spec fn ls_schema_model() -> JsonModel {
    JsonModel::object().with("type"@, JsonModel::Str("object"@)).with(
        "properties"@,
        JsonModel::object().with(
            "path"@,
            tools::property(
                "string"@,
                "Directory to list. Defaults to the session directory."@,
            ),
        ),
    )
}

pub(crate) fn ls_schema() -> (r: Json)
    ensures
        r@ == ls_schema_model(),
{
    Json::Object(
        JsonObject::new().with("type", Json::string("object")).with(
            "properties",
            Json::Object(
                JsonObject::new().with(
                    "path",
                    tools::make_property(
                        "string",
                        "Directory to list. Defaults to the session directory.",
                    ),
                ),
            ),
        ),
    )
}

/// The file that the arguments of `read` name.
pub fn read_path(args: &Json, cwd: &str) -> (r: Result<String, ToolOutput>)
    ensures
        match r {
            Ok(p) => args@.str_at("path"@) matches Some(a) && p@ == paths::joined(cwd@, a),
            Err(e) => args@.str_at("path"@) is None && e@ == tools::missing("path"@),
        },
{
    match arg_str(args, "path") {
        Ok(p) => Ok(tools::resolve(cwd, p)),
        Err(e) => Err(e),
    }
}

/// Why a file is not read, if so: it is a directory, or too large.
pub open spec fn read_refusal(path: Seq<char>, is_dir: bool, len: u64) -> Option<OutputModel> {
    if is_dir {
        Some(OutputModel::err(path + " is a directory; use `ls`"@))
    } else if len > MAX_READ_BYTES {
        Some(
            OutputModel::err(
                path + " is "@ + text::decimal(len as nat)
                    + " bytes, over the 1048576 byte limit; read it in chunks with `offset`/`limit` or filter it with `grep`"@,
            ),
        )
    } else {
        None
    }
}

/// Why a file is not read, if so.
pub fn refuse_read(path: &str, is_dir: bool, len: u64) -> (r: Option<ToolOutput>)
    ensures
        match r {
            Some(o) => read_refusal(path@, is_dir, len) == Some(o@),
            None => read_refusal(path@, is_dir, len) is None,
        },
{
    let mut out = path.to_owned();
    if is_dir {
        out.push_str(" is a directory; use `ls`");
        Some(ToolOutput::err(out))
    } else if len > MAX_READ_BYTES {
        out.push_str(" is ");
        let n = text::decimal_of(len);
        out.push_str(n.as_str());
        out.push_str(
            " bytes, over the 1048576 byte limit; read it in chunks with `offset`/`limit` or filter it with `grep`",
        );
        Some(ToolOutput::err(out))
    } else {
        None
    }
}

/// The first line to show, counted from one.
pub open spec fn offset_of(args: JsonModel) -> u64 {
    match args.get("offset"@) {
        Some(v) => match v.as_u64() {
            Some(n) if n > 1 => n,
            _ => 1,
        },
        None => 1,
    }
}

/// How many lines to show at most.
pub open spec fn limit_of(args: JsonModel) -> u64 {
    match args.get("limit"@) {
        Some(v) => match v.as_u64() {
            Some(n) => n,
            None => DEFAULT_READ_LINES,
        },
        None => DEFAULT_READ_LINES,
    }
}

/// Line `i` of a file, counted from zero, with its number before it.
pub open spec fn numbered(line: Seq<char>, i: int) -> Seq<char> {
    text::right_aligned(text::decimal((i + 1) as nat), 6) + "\t"@ + line + "\n"@
}

/// `n` lines from `first` on, numbered.
pub open spec fn numbered_lines(lines: Seq<Seq<char>>, first: int, n: int) -> Seq<char>
    decreases n,
{
    if n <= 0 {
        Seq::empty()
    } else {
        numbered_lines(lines, first, n - 1) + numbered(lines[first + n - 1], first + n - 1)
    }
}

/// How many lines are shown.
pub open spec fn shown_count(total: int, offset: u64, limit: u64) -> int {
    if offset - 1 >= total {
        0
    } else if limit <= total - (offset - 1) {
        limit as int
    } else {
        total - (offset - 1)
    }
}

/// What `read` answers of a file that holds `body`.
pub open spec fn page(path: Seq<char>, body: Seq<char>, offset: u64, limit: u64) -> OutputModel {
    let lines = text::lines(body);
    let total = lines.len() as int;
    let n = shown_count(total, offset, limit);
    if n == 0 {
        if total == 0 {
            OutputModel::ok(path + " is empty"@)
        } else {
            OutputModel::ok(
                "no lines at offset "@ + text::decimal(offset as nat) + " ("@ + text::decimal(
                    total as nat,
                ) + " lines total)"@,
            )
        }
    } else {
        let last = offset - 1 + n;
        let shown = numbered_lines(lines, offset - 1, n);
        if last < total {
            OutputModel::ok(
                shown + "\n[showing lines "@ + text::decimal(offset as nat) + "-"@
                    + text::decimal(last as nat) + " of "@ + text::decimal(total as nat) + "]"@,
            )
        } else {
            OutputModel::ok(shown)
        }
    }
}

/// What `read` answers of a file that holds `body`, from line `offset` on.
pub fn show_lines(path: &str, body: &str, offset: u64, limit: u64) -> (r: ToolOutput)
    requires
        offset >= 1,
    ensures
        r@ == page(path@, body@, offset, limit),
{
    let lines = text::lines_of(body);
    let ghost all = text::lines(body@);
    let total: usize = lines.len();
    if offset - 1 >= total as u64 || limit == 0 {
        if total == 0 {
            let mut out = path.to_owned();
            out.push_str(" is empty");
            return ToolOutput::ok(out);
        }
        let mut out = "no lines at offset ".to_owned();
        let o = text::decimal_of(offset);
        out.push_str(o.as_str());
        out.push_str(" (");
        let t = text::decimal_of(total as u64);
        out.push_str(t.as_str());
        out.push_str(" lines total)");
        return ToolOutput::ok(out);
    }
    let first: usize = (offset - 1) as usize;
    let left: usize = total - first;
    let n: usize = if limit <= left as u64 {
        limit as usize
    } else {
        left
    };
    let mut out = String::new();
    let mut k: usize = 0;
    while k < n
        invariant
            k <= n,
            first + n <= lines@.len(),
            total == lines@.len(),
            text::views(lines@) == all,
            out@ == numbered_lines(all, first as int, k as int),
        decreases n - k,
    {
        let i: usize = first + k;
        assert(all[i as int] == lines@[i as int]@);
        let number = text::decimal_of(i as u64 + 1);
        let mut line = text::align_right(number.as_str(), 6);
        line.push_str("\t");
        line.push_str(lines[i].as_str());
        line.push_str("\n");
        out.push_str(line.as_str());
        k += 1;
    }
    let last: usize = first + n;
    if last < total {
        out.push_str("\n[showing lines ");
        let o = text::decimal_of(offset);
        out.push_str(o.as_str());
        out.push_str("-");
        let l = text::decimal_of(last as u64);
        out.push_str(l.as_str());
        out.push_str(" of ");
        let t = text::decimal_of(total as u64);
        out.push_str(t.as_str());
        out.push_str("]");
    }
    ToolOutput::ok(out)
}

/// What is answered of a file that holds no text.
pub open spec fn binary(path: Seq<char>) -> OutputModel {
    OutputModel::err(path + " looks like a binary file"@)
}

/// What `read` answers of a file that holds these bytes: its lines, unless a
/// zero byte shows that it is no text.
pub fn read(args: &Json, path: &str, body: &[u8]) -> (r: ToolOutput)
    ensures
        r@ == (if body@.contains(0) {
            binary(path@)
        } else {
            page(path@, text::utf8_lossy(body@), offset_of(args@), limit_of(args@))
        }),
{
    let mut i: usize = 0;
    while i < body.len()
        invariant
            i <= body@.len(),
            forall|j: int| 0 <= j < i ==> #[trigger] body@[j] != 0,
        decreases body@.len() - i,
    {
        if body[i] == 0 {
            assert(body@[i as int] == 0);
            let mut out = path.to_owned();
            out.push_str(" looks like a binary file");
            return ToolOutput::err(out);
        }
        i += 1;
    }
    let offset: u64 = match args.get("offset") {
        Some(v) => match v.as_u64() {
            Some(n) => if n > 1 {
                n
            } else {
                1
            },
            None => 1,
        },
        None => 1,
    };
    let limit: u64 = match args.get("limit") {
        Some(v) => match v.as_u64() {
            Some(n) => n,
            None => DEFAULT_READ_LINES,
        },
        None => DEFAULT_READ_LINES,
    };
    let text = text::lossy(body);
    show_lines(path, text.as_str(), offset, limit)
}

/// The file and its new contents, as the arguments of `write` name them.
pub fn write_request(args: &Json, cwd: &str) -> (r: Result<(String, String), ToolOutput>)
    ensures
        match r {
            Ok((p, c)) => {
                &&& args@.str_at("path"@) matches Some(a) && p@ == paths::joined(cwd@, a)
                &&& args@.str_at("content"@) == Some(c@)
            },
            Err(e) => if args@.str_at("path"@) is None {
                e@ == tools::missing("path"@)
            } else {
                args@.str_at("content"@) is None && e@ == tools::missing("content"@)
            },
        },
{
    let path = match arg_str(args, "path") {
        Ok(s) => s,
        Err(e) => {
            return Err(e);
        },
    };
    let content = match arg_str(args, "content") {
        Ok(s) => s,
        Err(e) => {
            return Err(e);
        },
    };
    Ok((tools::resolve(cwd, path), content.to_owned()))
}

/// What is answered where the file was written.
pub fn wrote(path: &str, content: &str) -> (r: ToolOutput)
    ensures
        r@ == OutputModel::ok(
            "wrote "@ + text::decimal(text::byte_len(content@)) + " bytes to "@ + path@,
        ),
{
    let mut out = "wrote ".to_owned();
    let n = text::decimal_of(text::byte_count(content) as u64);
    out.push_str(n.as_str());
    out.push_str(" bytes to ");
    out.push_str(path);
    ToolOutput::ok(out)
}

/// The directory that the arguments of `ls` name.
pub fn ls_path(args: &Json, cwd: &str) -> (r: String)
    ensures
        r@ == tools::dir_arg(args@, "path"@, cwd@),
{
    tools::resolve_arg(args, "path", cwd)
}

/// One entry of a directory.
#[derive(Debug, PartialEq)]
pub struct DirEntry {
    pub name: String,
    pub is_dir: bool,
}

/// The entries as they are shown: directories with a slash behind them.
pub open spec fn marked(entries: Seq<DirEntry>) -> Seq<Seq<char>> {
    Seq::new(
        entries.len(),
        |i: int|
            if entries[i].is_dir {
                entries[i].name@ + "/"@
            } else {
                entries[i].name@
            },
    )
}

/// What `ls` answers: the entries in order, one on a line.
pub fn ls(path: &str, entries: &Vec<DirEntry>) -> (r: ToolOutput)
    ensures
        entries@.len() == 0 ==> r@ == OutputModel::ok(path@ + " is empty"@),
        entries@.len() > 0 ==> exists|shown: Seq<Seq<char>>|
            {
                &&& #[trigger] text::is_sorted(shown)
                &&& shown.to_multiset() == marked(entries@).to_multiset()
                &&& r@ == OutputModel::ok(text::join(shown, "\n"@))
            },
{
    if entries.len() == 0 {
        let mut out = path.to_owned();
        out.push_str(" is empty");
        return ToolOutput::ok(out);
    }
    let mut names: Vec<String> = Vec::new();
    let mut i: usize = 0;
    while i < entries.len()
        invariant
            i <= entries@.len(),
            names@.len() == i,
            forall|j: int| 0 <= j < i ==> (#[trigger] names@[j])@ == marked(entries@)[j],
        decreases entries@.len() - i,
    {
        let mut name = entries[i].name.clone();
        if entries[i].is_dir {
            name.push_str("/");
        }
        names.push(name);
        i += 1;
    }
    assert(text::views(names@) =~= marked(entries@));
    text::sort_strings(&mut names);
    assert(text::is_sorted(text::views(names@)));
    ToolOutput::ok(text::join_strings(&names, "\n"))
}

/// A file is shown line by line, each behind its number: from the offset on, as many as
/// were asked for or as there are. Where lines follow, a note says so.
pub proof fn law_lines_are_shown(path: Seq<char>, body: Seq<char>, offset: u64, limit: u64)
    requires
        1 <= offset <= text::lines(body).len(),
        limit > 0,
    ensures
        ({
            let lines = text::lines(body);
            let end = if offset - 1 + limit <= lines.len() {
                offset - 1 + limit
            } else {
                lines.len() as int
            };
            let shown = Seq::new(
                (end - offset + 1) as nat,
                |k: int|
                    text::right_aligned(text::decimal((offset + k) as nat), 6) + "\t"@ + lines[offset
                        - 1 + k] + "\n"@,
            ).flatten();
            let r = page(path, body, offset, limit);
            &&& !r.is_error
            &&& shown.is_prefix_of(r.content)
            &&& end == lines.len() ==> r.content == shown
            &&& end < lines.len() ==> r.content.skip(shown.len() as int) == "\n[showing lines "@
                + text::decimal(offset as nat) + "-"@ + text::decimal(end as nat) + " of "@
                + text::decimal(lines.len()) + "]"@
        }),
{
    let lines = text::lines(body);
    let n = shown_count(lines.len() as int, offset, limit);
    let f = |k: int|
        text::right_aligned(text::decimal((offset + k) as nat), 6) + "\t"@ + lines[offset - 1 + k]
            + "\n"@;
    let shown = numbered_lines(lines, offset - 1, n);
    lemma_numbered_lines(lines, offset - 1, n, Seq::new(n as nat, f));
    let r = page(path, body, offset, limit);
    if offset - 1 + n < lines.len() {
        let note = "\n[showing lines "@ + text::decimal(offset as nat) + "-"@ + text::decimal(
            (offset - 1 + n) as nat,
        ) + " of "@ + text::decimal(lines.len()) + "]"@;
        assert(r.content =~= shown + note);
        assert((shown + note).skip(shown.len() as int) =~= note);
    }
}

proof fn lemma_numbered_lines(
    lines: Seq<Seq<char>>,
    first: int,
    n: int,
    shown: Seq<Seq<char>>,
)
    requires
        0 <= n == shown.len(),
        forall|k: int| 0 <= k < n ==> #[trigger] shown[k] == numbered(lines[first + k], first + k),
    ensures
        numbered_lines(lines, first, n) == shown.flatten(),
    decreases n,
{
    if n > 0 {
        let init = shown.drop_last();
        lemma_numbered_lines(lines, first, n - 1, init);
        shown.lemma_flatten_and_flatten_alt_are_equivalent();
        init.lemma_flatten_and_flatten_alt_are_equivalent();
    }
}

/// Without an offset a file is read from its first line, and so it is where the offset is
/// zero; without a limit as many lines are read as usual.
pub proof fn law_where_reading_begins(args: JsonModel)
    ensures
        offset_of(args) >= 1,
        args.get("offset"@) is None ==> offset_of(args) == 1,
        args.get("offset"@) matches Some(v) ==> (v.as_u64() matches Some(n) ==> offset_of(args)
            == (if n == 0 {
            1
        } else {
            n
        })),
        args.get("limit"@) is None ==> limit_of(args) == 2000,
        args.get("limit"@) matches Some(v) ==> (v.as_u64() matches Some(n) ==> limit_of(args)
            == n),
{
}

/// Any file is read that is no directory and not too large.
pub proof fn law_what_can_be_read(path: Seq<char>, is_dir: bool, len: u64)
    ensures
        read_refusal(path, is_dir, len) is None <==> !is_dir && len <= 1048576,
        read_refusal(path, is_dir, len) matches Some(e) ==> e.is_error && path.is_prefix_of(
            e.content,
        ),
{
}

/// Every entry of a directory is listed by its name, and a directory is marked by a slash.
pub proof fn law_every_entry_is_listed(entries: Seq<DirEntry>, i: int)
    requires
        0 <= i < entries.len(),
    ensures
        marked(entries).len() == entries.len(),
        entries[i].is_dir ==> marked(entries)[i] == entries[i].name@ + "/"@,
        !entries[i].is_dir ==> marked(entries)[i] == entries[i].name@,
{
}

} // verus!
