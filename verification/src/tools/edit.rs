//! Replacement of an exact string in a file.
//!
//! The string must be unique: with more than one match the edit is ambiguous,
//! and picking the first would corrupt the file.
use crate::json;
use crate::json::{Json, JsonModel, JsonObject};
use crate::paths;
use crate::text;
use crate::tools;
use crate::tools::{arg_str, OutputModel, ToolOutput};
use vstd::prelude::*;

verus! {

pub const DESCRIPTION: &'static str =
    "Replace an exact string in a file. `old` must appear exactly once, so \
include enough surrounding context to make it unique. Read the file first.";

pub open spec fn schema_model() -> JsonModel {
    tools::object_schema(
        JsonModel::object().with("path"@, tools::property("string"@, "File to edit."@)).with(
            "old"@,
            tools::property("string"@, "Exact text to replace. Must be unique in the file."@),
        ).with("new"@, tools::property("string"@, "Replacement text."@)).with(
            "replace_all"@,
            tools::property(
                "boolean"@,
                "Replace every occurrence instead of requiring uniqueness."@,
            ),
        ),
        seq![JsonModel::Str("path"@), JsonModel::Str("old"@), JsonModel::Str("new"@)],
    )
}

pub(crate) fn schema() -> (r: Json)
    ensures
        r@ == schema_model(),
{
    let required: Vec<Json> = vec![Json::string("path"), Json::string("old"), Json::string("new")];
    assert(json::models(required@) =~= seq![
        JsonModel::Str("path"@),
        JsonModel::Str("old"@),
        JsonModel::Str("new"@),
    ]);
    tools::make_schema(
        JsonObject::new().with("path", tools::make_property("string", "File to edit.")).with(
            "old",
            tools::make_property("string", "Exact text to replace. Must be unique in the file."),
        ).with("new", tools::make_property("string", "Replacement text.")).with(
            "replace_all",
            tools::make_property(
                "boolean",
                "Replace every occurrence instead of requiring uniqueness.",
            ),
        ),
        required,
    )
}

/// An edit that was asked for.
#[derive(Debug, PartialEq)]
pub struct EditRequest {
    pub path: String,
    pub old: String,
    pub new: String,
    pub replace_all: bool,
}

/// What is wrong with the arguments, if anything.
pub open spec fn request_error(args: JsonModel) -> Option<OutputModel> {
    if args.str_at("path"@) is None {
        Some(tools::missing("path"@))
    } else if args.str_at("old"@) is None {
        Some(tools::missing("old"@))
    } else if args.str_at("new"@) is None {
        Some(tools::missing("new"@))
    } else if args.str_at("old"@) == args.str_at("new"@) {
        Some(OutputModel::err("`old` and `new` are identical; nothing to do"@))
    } else {
        None
    }
}

/// The flag `replace_all`, off where it is missing.
pub open spec fn wants_all(args: JsonModel) -> bool {
    match args.get("replace_all"@) {
        Some(v) => v.as_bool() == Some(true),
        None => false,
    }
}

/// The edit that the arguments ask for.
pub fn request(args: &Json, cwd: &str) -> (r: Result<EditRequest, ToolOutput>)
    ensures
        match r {
            Ok(q) => {
                &&& request_error(args@) is None
                &&& q.path@ == paths::joined(cwd@, args@.str_at("path"@)->0)
                &&& Some(q.old@) == args@.str_at("old"@)
                &&& Some(q.new@) == args@.str_at("new"@)
                &&& q.old@ != q.new@
                &&& q.replace_all == wants_all(args@)
            },
            Err(e) => request_error(args@) == Some(e@),
        },
{
    let path = match arg_str(args, "path") {
        Ok(s) => s,
        Err(e) => {
            return Err(e);
        },
    };
    let old = match arg_str(args, "old") {
        Ok(s) => s,
        Err(e) => {
            return Err(e);
        },
    };
    let new = match arg_str(args, "new") {
        Ok(s) => s,
        Err(e) => {
            return Err(e);
        },
    };
    if text::str_eq(old, new) {
        return Err(ToolOutput::err("`old` and `new` are identical; nothing to do".to_owned()));
    }
    let replace_all = match args.get("replace_all") {
        Some(v) => match v.as_bool() {
            Some(b) => b,
            None => false,
        },
        None => false,
    };
    Ok(
        EditRequest {
            path: tools::resolve(cwd, path),
            old: old.to_owned(),
            new: new.to_owned(),
            replace_all,
        },
    )
}

/// How often `old` stands in `body`, as far as the number fits.
pub open spec fn matches_in(body: Seq<char>, old: Seq<char>) -> nat {
    if text::count(body, old) <= usize::MAX {
        text::count(body, old)
    } else {
        usize::MAX as nat
    }
}

/// How often an ambiguous `old` is said to appear: counted without overlap, and at
/// every position where only overlapping ones make it ambiguous.
pub open spec fn appearances(body: Seq<char>, old: Seq<char>) -> nat {
    if text::count(body, old) > 1 {
        matches_in(body, old)
    } else if text::places_from(body, old, 0) <= usize::MAX {
        text::places_from(body, old, 0)
    } else {
        usize::MAX as nat
    }
}

/// Why an edit is refused, if it is: `old` is not there, or it does not stand at
/// exactly one position and not all of them are meant.
pub open spec fn refusal(
    path: Seq<char>,
    body: Seq<char>,
    old: Seq<char>,
    replace_all: bool,
) -> Option<OutputModel> {
    if text::count(body, old) == 0 {
        Some(
            OutputModel::err(
                "`old` was not found in "@ + path
                    + ". Read the file and copy the text exactly, including indentation."@,
            ),
        )
    } else if !replace_all && !text::stands_once(body, old) {
        Some(
            OutputModel::err(
                "`old` appears "@ + text::decimal(appearances(body, old)) + " times in "@ + path
                    + ". Add surrounding context to make it unique, or pass replace_all: true."@,
            ),
        )
    } else {
        None
    }
}

/// The edited file and how often `old` was replaced, or why the edit is refused.
pub fn apply(q: &EditRequest, body: &str) -> (r: Result<(String, usize), ToolOutput>)
    ensures
        match r {
            Ok((updated, n)) => {
                &&& refusal(q.path@, body@, q.old@, q.replace_all) is None
                &&& updated@ == text::replace(body@, q.old@, q.new@)
                &&& n == matches_in(body@, q.old@)
            },
            Err(e) => refusal(q.path@, body@, q.old@, q.replace_all) == Some(e@),
        },
{
    let n = text::str_count(body, q.old.as_str());
    if n == 0 {
        let mut out = "`old` was not found in ".to_owned();
        out.push_str(q.path.as_str());
        out.push_str(". Read the file and copy the text exactly, including indentation.");
        return Err(ToolOutput::err(out));
    }
    if !q.replace_all && !text::stands_once_in(body, q.old.as_str()) {
        let times: usize = if n > 1 {
            n
        } else {
            text::count_places(body, q.old.as_str())
        };
        let mut out = "`old` appears ".to_owned();
        let d = text::decimal_of(times as u64);
        out.push_str(d.as_str());
        out.push_str(" times in ");
        out.push_str(q.path.as_str());
        out.push_str(". Add surrounding context to make it unique, or pass replace_all: true.");
        return Err(ToolOutput::err(out));
    }
    Ok((text::str_replace(body, q.old.as_str(), q.new.as_str()), n))
}

/// What is answered where the edit was written.
pub open spec fn done(path: Seq<char>, n: nat) -> OutputModel {
    OutputModel::ok(
        "replaced "@ + text::decimal(n) + " occurrence"@ + (if n == 1 {
            ""@
        } else {
            "s"@
        }) + " in "@ + path,
    )
}

/// What is answered where the edit was written.
pub fn replaced(path: &str, n: usize) -> (r: ToolOutput)
    ensures
        r@ == done(path@, n as nat),
{
    let mut out = "replaced ".to_owned();
    let d = text::decimal_of(n as u64);
    out.push_str(d.as_str());
    out.push_str(" occurrence");
    if n == 1 {
        out.push_str("");
    } else {
        out.push_str("s");
    }
    out.push_str(" in ");
    out.push_str(path);
    ToolOutput::ok(out)
}

/// Without `replace_all`, an edit goes through exactly where `old` stands at one
/// position of the file, overlapping ones counted, and it then changes that place
/// and nothing else.
pub proof fn law_unique_edit(
    path: Seq<char>,
    body: Seq<char>,
    old_text: Seq<char>,
    new_text: Seq<char>,
)
    ensures
        refusal(path, body, old_text, false) is None <==> text::stands_once(body, old_text),
        forall|i: int|
            old_text.len() > 0 && #[trigger] text::stands_only_at(body, old_text, i)
                ==> text::replace(body, old_text, new_text) == body.take(i) + new_text + body.skip(
                i + old_text.len(),
            ),
{
    if old_text.len() > 0 {
        text::lemma_find_from(body, old_text, 0);
        assert forall|i: int| #[trigger] text::stands_only_at(body, old_text, i) implies text::count(
            body,
            old_text,
        ) == 1 && text::replace(body, old_text, new_text) == body.take(i) + new_text + body.skip(
            i + old_text.len(),
        ) by {
            reveal_with_fuel(text::count_from, 3);
            reveal_with_fuel(text::replace_from, 3);
            assert(text::find_from(body, old_text, 0) == Some(i));
            let rest = i + old_text.len();
            text::lemma_find_from(body, old_text, rest);
            assert(text::find_from(body, old_text, rest) is None);
            assert(body.subrange(0, i) =~= body.take(i));
        }
    }
}

/// An edit is made exactly where the text to replace is there: anywhere if every
/// occurrence is meant, and in one place only if not.
pub proof fn law_edit_is_made_where_it_can_be(path: Seq<char>, body: Seq<char>, wanted: Seq<char>)
    requires
        wanted.len() > 0,
    ensures
        refusal(path, body, wanted, true) is None <==> exists|i: int|
            #[trigger] text::occurs_at(body, wanted, i),
        refusal(path, body, wanted, false) is None <==> exists|i: int|
            #[trigger] text::occurs_at(body, wanted, i) && forall|j: int|
                #[trigger] text::occurs_at(body, wanted, j) ==> j == i,
        forall|all: bool|
            #[trigger] refusal(path, body, wanted, all) matches Some(e) ==> e.is_error,
{
    text::law_none_is_counted(body, wanted);
    law_unique_edit(path, body, wanted, Seq::empty());
    if text::stands_once(body, wanted) {
        let i = choose|i: int| text::stands_only_at(body, wanted, i);
        assert(text::occurs_at(body, wanted, i));
    }
    if exists|i: int|
        #[trigger] text::occurs_at(body, wanted, i) && forall|j: int|
            #[trigger] text::occurs_at(body, wanted, j) ==> j == i {
        let i = choose|i: int|
            #[trigger] text::occurs_at(body, wanted, i) && forall|j: int|
                #[trigger] text::occurs_at(body, wanted, j) ==> j == i;
        assert(text::stands_only_at(body, wanted, i));
    }
}

/// An edit is asked for with a path, the text to replace and the text to put in its
/// place, which must differ; every occurrence is meant only where that is said.
pub proof fn law_edit_needs_its_arguments(args: JsonModel)
    ensures
        request_error(args) is None <==> args.str_at("path"@) is Some && args.str_at("old"@)
            is Some && args.str_at("new"@) is Some && args.str_at("old"@) != args.str_at("new"@),
        request_error(args) matches Some(e) ==> e.is_error,
        wants_all(args) <==> args.get("replace_all"@) == Some(JsonModel::Bool(true)),
{
}

/// What was done is told: how often, and where.
pub proof fn law_edits_are_told(path: Seq<char>, n: nat)
    ensures
        !done(path, n).is_error,
        text::contains_str(done(path, n).content, text::decimal(n)),
        text::contains_str(done(path, n).content, path),
{
    let d = text::decimal(n);
    let told = done(path, n).content;
    let s = if n == 1 {
        ""@
    } else {
        "s"@
    };
    assert(told =~= "replaced "@ + d + (" occurrence"@ + s + " in "@ + path));
    text::law_found_is_there(told, d);
    let none = Seq::<char>::empty();
    assert(told =~= ("replaced "@ + d + " occurrence"@ + s + " in "@) + path + none);
    text::law_found_is_there(told, path);
}

} // verus!
