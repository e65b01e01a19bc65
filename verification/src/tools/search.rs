//! `glob` and `grep`.
//!
//! The caller walks the tree and hands each file over; what is skipped, what
//! matches, how much is collected and what is answered is decided here, so that
//! results are bounded at the source.
use crate::json;
use crate::json::{Json, JsonModel, JsonObject};
use crate::text;
use crate::tools;
use crate::tools::{arg_str, OutputModel, ToolOutput};
use vstd::prelude::*;

verus! {

broadcast use vstd::std_specs::vec::axiom_spec_len;

/// How many results are shown.
pub const MAX_RESULTS: usize = 500;

/// How deep the tree is walked.
pub const MAX_DEPTH: usize = 25;

/// How many characters of a matching line are shown.
pub const MAX_LINE_CHARS: usize = 300;

pub const GLOB_DESCRIPTION: &'static str =
    "Find files by glob pattern (for example `**/*.rs` or `src/**/test_*.py`). \
Skips .git, node_modules, target and similar directories.";

pub const GREP_DESCRIPTION: &'static str =
    "Search file contents with a regular expression and return matching lines \
with their file and line number. Optionally restrict the files with a glob.";

pub open spec fn glob_schema_model() -> JsonModel {
    tools::object_schema(
        JsonModel::object().with(
            "pattern"@,
            tools::property(
                "string"@,
                "Glob pattern, matched against the path relative to the search root."@,
            ),
        ).with(
            "path"@,
            tools::property(
                "string"@,
                "Directory to search. Defaults to the session directory."@,
            ),
        ),
        seq![JsonModel::Str("pattern"@)],
    )
}

pub(crate) fn glob_schema() -> (r: Json)
    ensures
        r@ == glob_schema_model(),
{
    let required: Vec<Json> = vec![Json::string("pattern")];
    assert(json::models(required@) =~= seq![JsonModel::Str("pattern"@)]);
    tools::make_schema(
        JsonObject::new().with(
            "pattern",
            tools::make_property(
                "string",
                "Glob pattern, matched against the path relative to the search root.",
            ),
        ).with(
            "path",
            tools::make_property(
                "string",
                "Directory to search. Defaults to the session directory.",
            ),
        ),
        required,
    )
}

pub open spec fn grep_schema_model() -> JsonModel {
    tools::object_schema(
        JsonModel::object().with(
            "pattern"@,
            tools::property("string"@, "Regular expression to search for."@),
        ).with(
            "path"@,
            tools::property(
                "string"@,
                "Directory to search. Defaults to the session directory."@,
            ),
        ).with(
            "include"@,
            tools::property(
                "string"@,
                "Only search files matching this glob, for example `*.rs`."@,
            ),
        ).with("ignore_case"@, tools::property("boolean"@, "Case-insensitive search."@)),
        seq![JsonModel::Str("pattern"@)],
    )
}

pub(crate) fn grep_schema() -> (r: Json)
    ensures
        r@ == grep_schema_model(),
{
    let required: Vec<Json> = vec![Json::string("pattern")];
    assert(json::models(required@) =~= seq![JsonModel::Str("pattern"@)]);
    tools::make_schema(
        JsonObject::new().with(
            "pattern",
            tools::make_property("string", "Regular expression to search for."),
        ).with(
            "path",
            tools::make_property(
                "string",
                "Directory to search. Defaults to the session directory.",
            ),
        ).with(
            "include",
            tools::make_property(
                "string",
                "Only search files matching this glob, for example `*.rs`.",
            ),
        ).with("ignore_case", tools::make_property("boolean", "Case-insensitive search.")),
        required,
    )
}

/// `globset::GlobSet`, carried through unseen.
#[verifier::external_type_specification]
#[verifier::external_body]
pub struct ExGlobSet(globset::GlobSet);

/// `regex::Regex`, carried through unseen.
#[verifier::external_type_specification]
#[verifier::external_body]
pub struct ExRegex(regex::Regex);

/// The glob that a compiled set was made from.
pub uninterp spec fn glob_source(set: globset::GlobSet) -> Seq<char>;

/// Why `globset` rejects a pattern, where it does.
pub uninterp spec fn glob_error(pattern: Seq<char>) -> Option<Seq<char>>;

/// Whether a glob that `globset` accepts matches a path.
pub uninterp spec fn glob_matches(pattern: Seq<char>, path: Seq<char>) -> bool;

/// The expression that a `Regex` was made from.
pub uninterp spec fn regex_source(re: regex::Regex) -> Seq<char>;

/// Why `regex` rejects an expression, where it does.
pub uninterp spec fn regex_error(pattern: Seq<char>) -> Option<Seq<char>>;

/// Whether an expression that `regex` accepts matches somewhere in a text.
pub uninterp spec fn regex_matches(pattern: Seq<char>, text: Seq<char>) -> bool;

/// `globset::Glob::new` and `globset::GlobSet::new`: the set of this one glob, or
/// the text of the error that either of them gives.
#[verifier::external_body]
fn compile_glob(pattern: &str) -> (r: Result<globset::GlobSet, String>)
    ensures
        match r {
            Ok(set) => glob_error(pattern@) is None && glob_source(set) == pattern@,
            Err(e) => glob_error(pattern@) == Some(e@),
        },
{
    match globset::Glob::new(pattern) {
        Ok(glob) => globset::GlobSet::new([glob]).map_err(|e| e.to_string()),
        Err(e) => Err(e.to_string()),
    }
}

/// `globset::GlobSet::is_match` on a path.
#[verifier::external_body]
fn glob_is_match(set: &globset::GlobSet, path: &str) -> (r: bool)
    ensures
        r == glob_matches(glob_source(*set), path@),
{
    set.is_match(path)
}

/// `regex::Regex::new`: the compiled expression, or the text of its error.
#[verifier::external_body]
fn compile_regex(pattern: &str) -> (r: Result<regex::Regex, String>)
    ensures
        match r {
            Ok(re) => regex_error(pattern@) is None && regex_source(re) == pattern@,
            Err(e) => regex_error(pattern@) == Some(e@),
        },
{
    regex::Regex::new(pattern).map_err(|e| e.to_string())
}

/// `regex::Regex::is_match` on a text.
#[verifier::external_body]
fn regex_is_match(re: &regex::Regex, text: &str) -> (r: bool)
    ensures
        r == regex_matches(regex_source(*re), text@),
{
    re.is_match(text)
}

/// Directories that are passed over: walking them is slow and never what was
/// asked for.
pub open spec fn skipped_dir(name: Seq<char>) -> bool {
    ||| name == ".git"@
    ||| name == "node_modules"@
    ||| name == "target"@
    ||| name == ".venv"@
    ||| name == "__pycache__"@
    ||| name == "dist"@
    ||| name == "build"@
    ||| name == ".next"@
}

/// Whether an entry of the tree is passed over with all that is below it. The
/// root itself never is.
pub fn is_skipped(depth: usize, is_dir: bool, name: &str) -> (r: bool)
    ensures
        r == (depth > 0 && is_dir && skipped_dir(name@)),
{
    depth > 0 && is_dir && (text::str_eq(name, ".git") || text::str_eq(name, "node_modules")
        || text::str_eq(name, "target") || text::str_eq(name, ".venv") || text::str_eq(
        name,
        "__pycache__",
    ) || text::str_eq(name, "dist") || text::str_eq(name, "build") || text::str_eq(name, ".next"))
}

/// What stands behind the last slash of a path.
pub open spec fn base_name(path: Seq<char>) -> Seq<char>
    decreases path.len(),
{
    if path.len() == 0 || path.last() == '/' {
        Seq::empty()
    } else {
        base_name(path.drop_last()).push(path.last())
    }
}

fn base_name_of(path: &str) -> (r: String)
    ensures
        r@ == base_name(path@),
{
    let cs = text::chars_of(path);
    let mut i: usize = cs.len();
    assert(path@.take(i as int) =~= path@);
    assert(path@.skip(i as int) =~= Seq::empty());
    assert(base_name(path@) =~= base_name(path@) + Seq::<char>::empty());
    while i > 0 && cs[i - 1] != '/'
        invariant
            i <= cs@.len(),
            cs@ == path@,
            base_name(path@) == base_name(path@.take(i as int)) + path@.skip(i as int),
        decreases i,
    {
        let ghost front = path@.take(i as int);
        assert(front.drop_last() =~= path@.take(i - 1));
        assert(base_name(path@.take(i - 1)).push(path@[i - 1]) + path@.skip(i as int)
            =~= base_name(path@.take(i - 1)) + path@.skip(i - 1));
        i -= 1;
    }
    let r = text::slice_of(cs.as_slice(), i, cs.len());
    assert(base_name(path@.take(i as int)) =~= Seq::empty());
    assert(r@ =~= base_name(path@));
    r
}

/// A glob is held against the path below the root, as a shell would, and against
/// the bare name, so that `*.rs` works without a prefix.
pub open spec fn glob_selects(pattern: Seq<char>, rel: Seq<char>) -> bool {
    ||| glob_matches(pattern, rel)
    ||| base_name(rel).len() > 0 && glob_matches(pattern, base_name(rel))
}

fn selects(set: &globset::GlobSet, rel: &str) -> (r: bool)
    ensures
        r == glob_selects(glob_source(*set), rel@),
{
    if glob_is_match(set, rel) {
        return true;
    }
    let name = base_name_of(rel);
    !name.as_str().is_empty() && glob_is_match(set, name.as_str())
}

/// What is answered to a pattern that its engine rejects.
pub open spec fn rejected(what: Seq<char>, pattern: Seq<char>, reason: Seq<char>) -> OutputModel {
    OutputModel::err("invalid "@ + what + " `"@ + pattern + "`: "@ + reason)
}

/// What is answered to a pattern that its engine rejects for this reason.
pub fn invalid(what: &str, pattern: &str, reason: &str) -> (r: ToolOutput)
    ensures
        r@ == rejected(what@, pattern@, reason@),
{
    let mut out = "invalid ".to_owned();
    out.push_str(what);
    out.push_str(" `");
    out.push_str(pattern);
    out.push_str("`: ");
    out.push_str(reason);
    ToolOutput::err(out)
}

/// What is answered to a file filter that is rejected for this reason.
pub fn invalid_include(reason: &str) -> (r: ToolOutput)
    ensures
        r@ == OutputModel::err("invalid include glob: "@ + reason@),
{
    let mut out = "invalid include glob: ".to_owned();
    out.push_str(reason);
    ToolOutput::err(out)
}

/// A search for files.
pub struct GlobRequest {
    pub pattern: String,
    pub root: String,
    pub set: globset::GlobSet,
}

/// What is wrong with the arguments of `glob`, if anything.
pub open spec fn glob_request_error(args: JsonModel) -> Option<OutputModel> {
    match args.str_at("pattern"@) {
        None => Some(tools::missing("pattern"@)),
        Some(p) => match glob_error(p) {
            Some(e) => Some(rejected("glob"@, p, e)),
            None => None,
        },
    }
}

/// The search that the arguments of `glob` ask for.
pub fn glob_request(args: &Json, cwd: &str) -> (r: Result<GlobRequest, ToolOutput>)
    ensures
        match r {
            Ok(q) => {
                &&& glob_request_error(args@) is None
                &&& args@.str_at("pattern"@) == Some(q.pattern@)
                &&& q.root@ == tools::dir_arg(args@, "path"@, cwd@)
                &&& glob_source(q.set) == q.pattern@
            },
            Err(e) => glob_request_error(args@) == Some(e@),
        },
{
    let pattern = match arg_str(args, "pattern") {
        Ok(p) => p,
        Err(e) => {
            return Err(e);
        },
    };
    match compile_glob(pattern) {
        Ok(set) => Ok(
            GlobRequest {
                pattern: pattern.to_owned(),
                root: tools::resolve_arg(args, "path", cwd),
                set,
            },
        ),
        Err(e) => Err(invalid("glob", pattern, e.as_str())),
    }
}

/// The files found so far: at most one more than is shown.
pub struct GlobSearch {
    found: Vec<String>,
}

impl GlobSearch {
    pub closed spec fn view(&self) -> Seq<Seq<char>> {
        text::views(self.found@)
    }

    #[verifier::type_invariant]
    spec fn bounded(&self) -> bool {
        self.found@.len() <= MAX_RESULTS + 1
    }

    pub fn new() -> (r: GlobSearch)
        ensures
            r@ == Seq::<Seq<char>>::empty(),
    {
        let r = GlobSearch { found: Vec::new() };
        assert(r@ =~= Seq::<Seq<char>>::empty());
        r
    }

    /// Whether enough was found for the walk to stop.
    pub fn is_full(&self) -> (r: bool)
        ensures
            r == (self@.len() > MAX_RESULTS),
    {
        self.found.len() > MAX_RESULTS
    }

    /// Takes a file in, where it `matched` and there is room.
    pub fn add(&mut self, rel: &str, matched: bool)
        ensures
            final(self)@ == (if matched && old(self)@.len() <= MAX_RESULTS {
                old(self)@.push(rel@)
            } else {
                old(self)@
            }),
    {
        if matched && self.found.len() <= MAX_RESULTS {
            let mut found: Vec<String> = Vec::new();
            std::mem::swap(&mut found, &mut self.found);
            let ghost before = found@;
            found.push(rel.to_owned());
            assert(text::views(found@) =~= text::views(before).push(rel@));
            self.found = found;
        }
    }

    /// Looks at one file below the root.
    pub fn visit(&mut self, set: &globset::GlobSet, rel: &str)
        ensures
            final(self)@ == (if glob_selects(glob_source(*set), rel@) && old(self)@.len()
                <= MAX_RESULTS {
                old(self)@.push(rel@)
            } else {
                old(self)@
            }),
    {
        let matched = selects(set, rel);
        self.add(rel, matched);
    }

    /// What was found, in order.
    pub fn finish(self) -> (r: Vec<String>)
        ensures
            text::is_sorted(text::views(r@)),
            text::views(r@).to_multiset() == self@.to_multiset(),
            r@.len() <= MAX_RESULTS + 1,
    {
        proof {
            use_type_invariant(&self);
        }
        let mut found = self.found;
        text::sort_strings(&mut found);
        proof {
            self@.to_multiset_ensures();
            text::views(found@).to_multiset_ensures();
        }
        found
    }
}

/// At most so many of `items` as are shown, one on a line, with `note` where there
/// are more.
pub open spec fn listing(items: Seq<Seq<char>>, note: Seq<char>) -> Seq<char> {
    if items.len() > MAX_RESULTS {
        text::join(items.take(MAX_RESULTS as int), "\n"@) + note
    } else {
        text::join(items, "\n"@)
    }
}

fn list(items: &Vec<String>, note: &str) -> (r: String)
    ensures
        r@ == listing(text::views(items@), note@),
{
    if items.len() <= MAX_RESULTS {
        return text::join_strings(items, "\n");
    }
    let mut shown: Vec<String> = Vec::new();
    let mut i: usize = 0;
    while i < MAX_RESULTS
        invariant
            i <= MAX_RESULTS < items@.len(),
            shown@.len() == i,
            forall|j: int| 0 <= j < i ==> (#[trigger] shown@[j])@ == items@[j]@,
        decreases MAX_RESULTS - i,
    {
        shown.push(items[i].clone());
        i += 1;
    }
    assert(text::views(shown@) =~= text::views(items@).take(MAX_RESULTS as int));
    let mut out = text::join_strings(&shown, "\n");
    out.push_str(note);
    out
}

/// What a search answers: what it found, or that there is nothing.
pub open spec fn search_answer(
    nothing: Seq<char>,
    pattern: Seq<char>,
    root: Seq<char>,
    items: Seq<Seq<char>>,
    note: Seq<char>,
) -> OutputModel {
    if items.len() == 0 {
        OutputModel::ok(nothing + " `"@ + pattern + "` under "@ + root)
    } else {
        OutputModel::ok(listing(items, note))
    }
}

fn answer(nothing: &str, pattern: &str, root: &str, items: &Vec<String>, note: &str) -> (r:
    ToolOutput)
    ensures
        r@ == search_answer(nothing@, pattern@, root@, text::views(items@), note@),
{
    if items.len() == 0 {
        let mut out = nothing.to_owned();
        out.push_str(" `");
        out.push_str(pattern);
        out.push_str("` under ");
        out.push_str(root);
        return ToolOutput::ok(out);
    }
    ToolOutput::ok(list(items, note))
}

/// What `glob` answers.
pub fn glob(pattern: &str, root: &str, found: &Vec<String>) -> (r: ToolOutput)
    ensures
        r@ == search_answer(
            "no files match"@,
            pattern@,
            root@,
            text::views(found@),
            "\n\n[first 500 matches; narrow the pattern for more]"@,
        ),
{
    answer(
        "no files match",
        pattern,
        root,
        found,
        "\n\n[first 500 matches; narrow the pattern for more]",
    )
}

/// A search in files.
pub struct GrepRequest {
    pub pattern: String,
    pub root: String,
    pub re: regex::Regex,
    pub filter: Option<globset::GlobSet>,
}

/// The expression that is searched for.
pub open spec fn grep_source(args: JsonModel, pattern: Seq<char>) -> Seq<char> {
    match args.get("ignore_case"@) {
        Some(v) if v.as_bool() == Some(true) => "(?i)"@ + pattern,
        _ => pattern,
    }
}

/// What is wrong with the arguments of `grep`, if anything.
pub open spec fn grep_request_error(args: JsonModel) -> Option<OutputModel> {
    match args.str_at("pattern"@) {
        None => Some(tools::missing("pattern"@)),
        Some(p) => match regex_error(grep_source(args, p)) {
            Some(e) => Some(rejected("regex"@, p, e)),
            None => match args.str_at("include"@) {
                Some(g) => match glob_error(g) {
                    Some(e) => Some(OutputModel::err("invalid include glob: "@ + e)),
                    None => None,
                },
                None => None,
            },
        },
    }
}

/// The search that the arguments of `grep` ask for.
pub fn grep_request(args: &Json, cwd: &str) -> (r: Result<GrepRequest, ToolOutput>)
    ensures
        match r {
            Ok(q) => {
                &&& grep_request_error(args@) is None
                &&& args@.str_at("pattern"@) == Some(q.pattern@)
                &&& q.root@ == tools::dir_arg(args@, "path"@, cwd@)
                &&& regex_source(q.re) == grep_source(args@, q.pattern@)
                &&& match q.filter {
                    Some(set) => args@.str_at("include"@) == Some(glob_source(set)),
                    None => args@.str_at("include"@) is None,
                }
            },
            Err(e) => grep_request_error(args@) == Some(e@),
        },
{
    let pattern = match arg_str(args, "pattern") {
        Ok(p) => p,
        Err(e) => {
            return Err(e);
        },
    };
    let ignore_case = match args.get("ignore_case") {
        Some(v) => match v.as_bool() {
            Some(b) => b,
            None => false,
        },
        None => false,
    };
    let source = if ignore_case {
        let mut s = "(?i)".to_owned();
        s.push_str(pattern);
        s
    } else {
        pattern.to_owned()
    };
    let re = match compile_regex(source.as_str()) {
        Ok(re) => re,
        Err(e) => {
            return Err(invalid("regex", pattern, e.as_str()));
        },
    };
    let filter = match args.str_at("include") {
        Some(g) => match compile_glob(g) {
            Ok(set) => Some(set),
            Err(e) => {
                return Err(invalid_include(e.as_str()));
            },
        },
        None => None,
    };
    Ok(
        GrepRequest {
            pattern: pattern.to_owned(),
            root: tools::resolve_arg(args, "path", cwd),
            re,
            filter,
        },
    )
}

/// Whether a file is searched at all.
pub fn is_wanted(filter: &Option<globset::GlobSet>, rel: &str) -> (r: bool)
    ensures
        r == (match filter {
            Some(set) => glob_selects(glob_source(*set), rel@),
            None => true,
        }),
{
    match filter {
        Some(set) => selects(set, rel),
        None => true,
    }
}

/// How a matching line is shown; `i` counts from zero.
pub open spec fn hit(rel: Seq<char>, i: int, line: Seq<char>) -> Seq<char> {
    rel + ":"@ + text::decimal((i + 1) as nat) + ": "@ + text::prefix(
        text::trim_end(line),
        MAX_LINE_CHARS as nat,
    )
}

/// The hits among `lines`, where `matched` tells which of them match.
pub open spec fn hits_among(
    rel: Seq<char>,
    lines: Seq<Seq<char>>,
    matched: Seq<bool>,
) -> Seq<Seq<char>>
    decreases lines.len(),
{
    if lines.len() == 0 || matched.len() != lines.len() {
        Seq::empty()
    } else {
        let before = hits_among(rel, lines.drop_last(), matched.drop_last());
        if matched.last() {
            before.push(hit(rel, lines.len() - 1, lines.last()))
        } else {
            before
        }
    }
}

/// Which lines an expression matches.
pub open spec fn matches_of(pattern: Seq<char>, lines: Seq<Seq<char>>) -> Seq<bool> {
    Seq::new(lines.len(), |i: int| regex_matches(pattern, lines[i]))
}

/// `hits` up to one more than is shown.
pub open spec fn bounded_hits(hits: Seq<Seq<char>>) -> Seq<Seq<char>> {
    if hits.len() > MAX_RESULTS {
        hits.take(MAX_RESULTS + 1)
    } else {
        hits
    }
}

/// The matching lines found so far: at most one more than is shown.
pub struct GrepSearch {
    hits: Vec<String>,
}

impl GrepSearch {
    pub closed spec fn view(&self) -> Seq<Seq<char>> {
        text::views(self.hits@)
    }

    #[verifier::type_invariant]
    spec fn bounded(&self) -> bool {
        self.hits@.len() <= MAX_RESULTS + 1
    }

    pub fn new() -> (r: GrepSearch)
        ensures
            r@ == Seq::<Seq<char>>::empty(),
    {
        let r = GrepSearch { hits: Vec::new() };
        assert(r@ =~= Seq::<Seq<char>>::empty());
        r
    }

    /// Whether enough was found for the walk to stop.
    pub fn is_full(&self) -> (r: bool)
        ensures
            r == (self@.len() > MAX_RESULTS),
    {
        self.hits.len() > MAX_RESULTS
    }

    /// Takes in the lines of one file that `matched`, as far as there is room.
    pub fn add(&mut self, rel: &str, lines: &Vec<String>, matched: &Vec<bool>)
        requires
            matched@.len() == lines@.len(),
        ensures
            final(self)@ == bounded_hits(
                old(self)@ + hits_among(rel@, text::views(lines@), matched@),
            ),
    {
        proof {
            use_type_invariant(&*self);
        }
        let ghost start = self@;
        let ghost all = text::views(lines@);
        let mut hits: Vec<String> = Vec::new();
        std::mem::swap(&mut hits, &mut self.hits);
        let mut i: usize = 0;
        assert(all.take(0) =~= Seq::empty());
        assert(matched@.take(0) =~= Seq::empty());
        assert(start + Seq::<Seq<char>>::empty() =~= start);
        assert(bounded_hits(start) =~= start);
        while i < lines.len()
            invariant
                i <= lines@.len(),
                matched@.len() == lines@.len(),
                all == text::views(lines@),
                hits@.len() <= MAX_RESULTS + 1,
                text::views(hits@) == bounded_hits(
                    start + hits_among(rel@, all.take(i as int), matched@.take(i as int)),
                ),
            decreases lines@.len() - i,
        {
            let ghost so_far = hits_among(rel@, all.take(i as int), matched@.take(i as int));
            let ghost before = hits@;
            assert(all.take(i + 1).drop_last() =~= all.take(i as int));
            assert(matched@.take(i + 1).drop_last() =~= matched@.take(i as int));
            assert(all.take(i + 1).last() == lines@[i as int]@);
            if matched[i] {
                let ghost next = hit(rel@, i as int, lines@[i as int]@);
                assert(start + so_far.push(next) =~= (start + so_far).push(next));
                if hits.len() <= MAX_RESULTS {
                    let mut shown = rel.to_owned();
                    shown.push_str(":");
                    let n = text::decimal_of(i as u64 + 1);
                    shown.push_str(n.as_str());
                    shown.push_str(": ");
                    let t = text::trimmed_end(lines[i].as_str());
                    let cut = text::take_chars(t.as_str(), MAX_LINE_CHARS);
                    shown.push_str(cut.as_str());
                    hits.push(shown);
                    assert(text::views(hits@) =~= text::views(before).push(next));
                    assert(bounded_hits((start + so_far).push(next)) =~= text::views(
                        before,
                    ).push(next));
                } else {
                    assert(bounded_hits((start + so_far).push(next)) =~= bounded_hits(
                        start + so_far,
                    ));
                }
            }
            i += 1;
        }
        assert(all.take(i as int) =~= all);
        assert(matched@.take(i as int) =~= matched@);
        self.hits = hits;
    }

    /// Searches one file that holds `body`.
    pub fn visit(&mut self, re: &regex::Regex, rel: &str, body: &str)
        ensures
            final(self)@ == bounded_hits(
                old(self)@ + hits_among(
                    rel@,
                    text::lines(body@),
                    matches_of(regex_source(*re), text::lines(body@)),
                ),
            ),
    {
        let lines = text::lines_of(body);
        let mut matched: Vec<bool> = Vec::new();
        let mut i: usize = 0;
        while i < lines.len()
            invariant
                i <= lines@.len(),
                matched@.len() == i,
                forall|j: int|
                    0 <= j < i ==> (#[trigger] matched@[j]) == regex_matches(
                        regex_source(*re),
                        lines@[j]@,
                    ),
            decreases lines@.len() - i,
        {
            matched.push(regex_is_match(re, lines[i].as_str()));
            i += 1;
        }
        assert(matched@ =~= matches_of(regex_source(*re), text::lines(body@))) by {
            assert(text::views(lines@) == text::lines(body@));
            assert forall|j: int| 0 <= j < matched@.len() implies (#[trigger] matched@[j])
                == regex_matches(regex_source(*re), text::lines(body@)[j]) by {
                assert(text::views(lines@)[j] == lines@[j]@);
            }
        }
        self.add(rel, &lines, &matched);
    }

    /// What was found, in the order of the walk.
    pub fn finish(self) -> (r: Vec<String>)
        ensures
            text::views(r@) == self@,
    {
        self.hits
    }
}

/// What `grep` answers.
pub fn grep(pattern: &str, root: &str, hits: &Vec<String>) -> (r: ToolOutput)
    ensures
        r@ == search_answer(
            "no matches for"@,
            pattern@,
            root@,
            text::views(hits@),
            "\n\n[first 500 matches; narrow the search for more]"@,
        ),
{
    answer(
        "no matches for",
        pattern,
        root,
        hits,
        "\n\n[first 500 matches; narrow the search for more]",
    )
}

/// The last part of a path is what stands behind its last slash.
pub proof fn law_base_name_is_the_last_part(path: Seq<char>)
    ensures
        !base_name(path).contains('/'),
        exists|dir: Seq<char>|
            #![trigger dir + base_name(path)]
            path == dir + base_name(path) && (dir.len() == 0 || dir.last() == '/'),
    decreases path.len(),
{
    if path.len() == 0 || path.last() == '/' {
        assert(path =~= path + base_name(path));
    } else {
        let init = path.drop_last();
        law_base_name_is_the_last_part(init);
        let dir = choose|dir: Seq<char>|
            #![trigger dir + base_name(init)]
            init == dir + base_name(init) && (dir.len() == 0 || dir.last() == '/');
        assert(path =~= init.push(path.last()));
        assert(path =~= dir + base_name(path));
        if base_name(path).contains('/') {
            let k = choose|k: int| 0 <= k < base_name(path).len() && base_name(path)[k] == '/';
            assert(base_name(init)[k] == '/');
        }
    }
}

/// Every line that matched is reported, in order, under its file and its number, and no
/// other line is.
pub proof fn law_every_match_is_reported(
    rel: Seq<char>,
    lines: Seq<Seq<char>>,
    matched: Seq<bool>,
)
    requires
        matched.len() == lines.len(),
    ensures
        hits_among(rel, lines, matched) == Seq::new(lines.len(), |i: int| i).filter(
            |i: int| matched[i],
        ).map_values(
            |i: int|
                rel + ":"@ + text::decimal((i + 1) as nat) + ": "@ + text::prefix(
                    text::trim_end(lines[i]),
                    MAX_LINE_CHARS as nat,
                ),
        ),
    decreases lines.len(),
{
    reveal(Seq::filter);
    let p = |i: int| matched[i];
    let f = |i: int|
        rel + ":"@ + text::decimal((i + 1) as nat) + ": "@ + text::prefix(
            text::trim_end(lines[i]),
            MAX_LINE_CHARS as nat,
        );
    let all = Seq::new(lines.len(), |i: int| i);
    if lines.len() > 0 {
        let (ls, ms) = (lines.drop_last(), matched.drop_last());
        law_every_match_is_reported(rel, ls, ms);
        let q = |i: int| ms[i];
        let g = |i: int|
            rel + ":"@ + text::decimal((i + 1) as nat) + ": "@ + text::prefix(
                text::trim_end(ls[i]),
                MAX_LINE_CHARS as nat,
            );
        let some = Seq::new(ls.len(), |i: int| i);
        assert(all.drop_last() =~= some);
        lemma_same_filter(some, p, q);
        let kept = some.filter(p);
        assert forall|k: int| 0 <= k < kept.len() implies f(#[trigger] kept[k]) == g(kept[k]) by {
            assert(kept.contains(kept[k]));
            some.lemma_filter_contains_rev(p, kept[k]);
        }
        assert(kept.map_values(f) =~= kept.map_values(g));
        let n = lines.len() - 1;
        assert(all.last() == n);
        if matched.last() {
            assert(all.filter(p) =~= kept.push(n));
            assert(all.filter(p).map_values(f) =~= kept.map_values(f).push(f(n)));
        } else {
            assert(all.filter(p) =~= kept);
        }
    } else {
        assert(all.filter(p).map_values(f) =~= Seq::empty());
    }
}

proof fn lemma_same_filter(s: Seq<int>, p: spec_fn(int) -> bool, q: spec_fn(int) -> bool)
    requires
        forall|k: int| 0 <= k < s.len() ==> p(#[trigger] s[k]) == q(s[k]),
    ensures
        s.filter(p) == s.filter(q),
    decreases s.len(),
{
    reveal(Seq::filter);
    if s.len() > 0 {
        assert forall|k: int| 0 <= k < s.drop_last().len() implies p(#[trigger] s.drop_last()[k])
            == q(s.drop_last()[k]) by {
            assert(s.drop_last()[k] == s[k]);
        }
        lemma_same_filter(s.drop_last(), p, q);
        assert(s[s.len() - 1] == s.last());
    }
}

/// What was found is listed line by line and can be read back from the listing; of too
/// many, the first are listed and a note follows.
pub proof fn law_found_is_listed(items: Seq<Seq<char>>, note: Seq<char>)
    requires
        items.len() > 0,
        forall|i: int| 0 <= i < items.len() ==> !#[trigger] items[i].contains('\n'),
    ensures
        items.len() <= MAX_RESULTS ==> text::split(listing(items, note), '\n') == items,
        items.len() > MAX_RESULTS ==> exists|shown: Seq<char>|
            #![trigger shown + note]
            listing(items, note) == shown + note && text::split(shown, '\n') == items.take(
                MAX_RESULTS as int,
            ),
{
    reveal_strlit("\n");
    assert("\n"@ =~= seq!['\n']);
    if items.len() <= MAX_RESULTS {
        text::law_joined_parts_split(items, '\n');
    } else {
        let some = items.take(MAX_RESULTS as int);
        assert forall|i: int| 0 <= i < some.len() implies !#[trigger] some[i].contains('\n') by {
            assert(some[i] == items[i]);
        }
        text::law_joined_parts_split(some, '\n');
        assert(listing(items, note) == text::join(some, seq!['\n']) + note);
    }
}

/// A file is selected where the pattern matches its path, or the last part of its path.
pub proof fn law_file_is_selected(pattern: Seq<char>, dir: Seq<char>, name: Seq<char>)
    requires
        name.len() > 0,
        !name.contains('/'),
        dir.len() == 0 || dir.last() == '/',
    ensures
        glob_selects(pattern, dir + name) <==> glob_matches(pattern, dir + name) || glob_matches(
            pattern,
            name,
        ),
{
    lemma_base_name(dir, name);
}

proof fn lemma_base_name(dir: Seq<char>, name: Seq<char>)
    requires
        !name.contains('/'),
        dir.len() == 0 || dir.last() == '/',
    ensures
        base_name(dir + name) == name,
    decreases name.len(),
{
    let path = dir + name;
    if name.len() > 0 {
        let init = name.drop_last();
        assert forall|k: int| 0 <= k < init.len() implies init[k] != '/' by {
            assert(name[k] == init[k]);
            assert(name.contains(name[k]));
        }
        lemma_base_name(dir, init);
        assert(name[name.len() - 1] == name.last());
        assert(name.contains(name.last()));
        assert(path.drop_last() =~= dir + init);
        assert(init.push(name.last()) =~= name);
    } else {
        assert(path =~= dir);
        assert(name =~= Seq::empty());
    }
}

/// A search answers with what it found, and it says so where it found nothing; neither is
/// an error.
pub proof fn law_search_answers(
    nothing: Seq<char>,
    pattern: Seq<char>,
    root: Seq<char>,
    items: Seq<Seq<char>>,
    note: Seq<char>,
)
    ensures
        !search_answer(nothing, pattern, root, items, note).is_error,
        items.len() == 0 ==> search_answer(nothing, pattern, root, items, note).content == nothing
            + " `"@ + pattern + "` under "@ + root,
        items.len() > 0 ==> search_answer(nothing, pattern, root, items, note).content == listing(
            items,
            note,
        ),
{
}

/// The pattern is searched for as it was given, and in either case where that is asked for.
pub proof fn law_pattern_is_searched_as_given(args: JsonModel, pattern: Seq<char>)
    ensures
        args.get("ignore_case"@) == Some(JsonModel::Bool(true)) ==> grep_source(args, pattern)
            == "(?i)"@ + pattern,
        args.get("ignore_case"@) != Some(JsonModel::Bool(true)) ==> grep_source(args, pattern)
            == pattern,
        args.str_at("pattern"@) is None ==> grep_request_error(args) is Some && glob_request_error(
            args,
        ) is Some,
        args.str_at("pattern"@) matches Some(p) ==> {
            &&& glob_request_error(args) is None <==> glob_error(p) is None
            &&& grep_request_error(args) is None <==> regex_error(grep_source(args, p)) is None && (
            args.str_at("include"@) matches Some(g) ==> glob_error(g) is None)
        },
{
}

/// As long as there are too many hits one more than is shown is kept, so that it can be
/// told that some are left out; else all are kept.
pub proof fn law_overflow_is_noticed(hits: Seq<Seq<char>>)
    ensures
        bounded_hits(hits).is_prefix_of(hits),
        bounded_hits(hits).len() > MAX_RESULTS <==> hits.len() > MAX_RESULTS,
        hits.len() <= MAX_RESULTS ==> bounded_hits(hits) == hits,
        hits.len() > MAX_RESULTS ==> bounded_hits(hits).take(MAX_RESULTS as int) == hits.take(
            MAX_RESULTS as int,
        ),
{
    if hits.len() > MAX_RESULTS {
        assert(bounded_hits(hits).take(MAX_RESULTS as int) =~= hits.take(MAX_RESULTS as int));
    }
}

} // verus!
