//! `web_fetch`: what is asked for, and what the model gets to read.
//!
//! HTML is stripped rather than parsed: what the model needs is the prose.
use crate::json;
use crate::json::{Json, JsonModel, JsonObject};
use crate::text;
use crate::tools;
use crate::tools::{arg_str, OutputModel, ToolOutput};
use vstd::prelude::*;

verus! {

broadcast use vstd::std_specs::vec::axiom_spec_len;

/// How much of a page is kept.
pub const MAX_BYTES: usize = 262144;

pub const DESCRIPTION: &'static str =
    "Fetch a URL over HTTP(S) and return its text content, with HTML tags \
stripped. Use it to read documentation or an API response.";

pub open spec fn schema_model() -> JsonModel {
    tools::object_schema(
        JsonModel::object().with(
            "url"@,
            tools::property("string"@, "Absolute http or https URL."@),
        ),
        seq![JsonModel::Str("url"@)],
    )
}

pub(crate) fn schema() -> (r: Json)
    ensures
        r@ == schema_model(),
{
    let required: Vec<Json> = vec![Json::string("url")];
    assert(json::models(required@) =~= seq![JsonModel::Str("url"@)]);
    tools::make_schema(
        JsonObject::new().with(
            "url",
            tools::make_property("string", "Absolute http or https URL."),
        ),
        required,
    )
}

/// What is wrong with the arguments, if anything.
pub open spec fn request_error(args: JsonModel) -> Option<OutputModel> {
    match args.str_at("url"@) {
        None => Some(tools::missing("url"@)),
        Some(u) => if "http://"@.is_prefix_of(u) || "https://"@.is_prefix_of(u) {
            None
        } else {
            Some(OutputModel::err("url must start with http:// or https://"@))
        },
    }
}

/// The address that the arguments name.
pub fn url(args: &Json) -> (r: Result<String, ToolOutput>)
    ensures
        match r {
            Ok(u) => request_error(args@) is None && args@.str_at("url"@) == Some(u@),
            Err(e) => request_error(args@) == Some(e@),
        },
{
    match arg_str(args, "url") {
        Err(e) => Err(e),
        Ok(u) => if text::str_starts_with(u, "http://") || text::str_starts_with(u, "https://") {
            Ok(u.to_owned())
        } else {
            Err(ToolOutput::err("url must start with http:// or https://".to_owned()))
        },
    }
}

/// What is answered where the request did not get through.
pub fn request_failed(reason: &str) -> (r: ToolOutput)
    ensures
        r@ == OutputModel::err("request failed: "@ + reason@),
{
    let mut out = "request failed: ".to_owned();
    out.push_str(reason);
    ToolOutput::err(out)
}

/// What is answered where the response broke off.
pub fn body_failed(reason: &str) -> (r: ToolOutput)
    ensures
        r@ == OutputModel::err("could not read response body: "@ + reason@),
{
    let mut out = "could not read response body: ".to_owned();
    out.push_str(reason);
    ToolOutput::err(out)
}

/// What is answered of a page: its text, cut in the middle where it is long.
pub open spec fn page(
    success: bool,
    status: Seq<char>,
    content_type: Seq<char>,
    body: Seq<char>,
) -> OutputModel {
    let readable = if text::contains_str(content_type, "html"@) {
        stripped(body)
    } else {
        body
    };
    let shown = tools::exec::truncated_middle(readable, MAX_BYTES as int);
    if success {
        OutputModel::ok(shown)
    } else {
        OutputModel::err("HTTP "@ + status + "\n\n"@ + shown)
    }
}

/// What is answered of a response: whether its status is a success, the status as
/// text, its content type and its body.
pub fn fetched(success: bool, status: &str, content_type: &str, body: &str) -> (r: ToolOutput)
    ensures
        r@ == page(success, status@, content_type@, body@),
{
    let readable = if text::str_contains(content_type, "html") {
        strip_html(body)
    } else {
        body.to_owned()
    };
    let shown = tools::exec::truncate_middle(readable.as_str(), MAX_BYTES);
    if success {
        return ToolOutput::ok(shown);
    }
    let mut out = "HTTP ".to_owned();
    out.push_str(status);
    out.push_str("\n\n");
    out.push_str(shown.as_str());
    ToolOutput::err(out)
}

/// The elements whose contents are no prose: what opens one at `i`, and what
/// closes it.
pub open spec fn hidden_close(low: Seq<char>, i: int) -> Option<Seq<char>> {
    if text::occurs_at(low, "<script"@, i) {
        Some("</script>"@)
    } else if text::occurs_at(low, "<style"@, i) {
        Some("</style>"@)
    } else {
        None
    }
}

/// `s` from `i` on with a space in place of every tag, and of every element whose
/// contents are no prose. A tag that is not closed ends the text.
pub open spec fn untagged(s: Seq<char>, i: int) -> Seq<char>
    decreases s.len() - i,
{
    if i < 0 || i >= s.len() {
        Seq::empty()
    } else if s[i] != '<' {
        seq![s[i]] + untagged(s, i + 1)
    } else {
        match hidden_close(text::ascii_lowered(s), i) {
            Some(close) => match text::find_from(text::ascii_lowered(s), close, i) {
                Some(e) => if i <= e && 0 < close.len() && e + close.len() <= s.len() {
                    seq![' '] + untagged(s, e + close.len())
                } else {
                    Seq::empty()
                },
                None => seq![' '],
            },
            None => match text::find_from(s, seq!['>'], i) {
                Some(e) => if i <= e < s.len() {
                    seq![' '] + untagged(s, e + 1)
                } else {
                    Seq::empty()
                },
                None => Seq::empty(),
            },
        }
    }
}

/// The lines of a text put together so far, and whether a blank line was the last.
pub open spec fn squeezed_lines(ls: Seq<Seq<char>>) -> (Seq<char>, bool)
    decreases ls.len(),
{
    if ls.len() == 0 {
        (Seq::empty(), false)
    } else {
        let (out, blank) = squeezed_lines(ls.drop_last());
        let t = text::collapsed(ls.last());
        if t.len() > 0 {
            ((out + t).push('\n'), false)
        } else if !blank && out.len() > 0 {
            (out.push('\n'), true)
        } else {
            (out, blank)
        }
    }
}

/// `s` with runs of white space inside lines made one space, and runs of blank
/// lines made one.
pub open spec fn squeezed(s: Seq<char>) -> Seq<char> {
    text::trim(squeezed_lines(text::lines(s)).0)
}

/// The lines of a text that are kept: each with single spaces, a blank one only
/// behind one that is not.
pub open spec fn kept_lines(ls: Seq<Seq<char>>) -> Seq<Seq<char>>
    decreases ls.len(),
{
    if ls.len() == 0 {
        Seq::empty()
    } else {
        let kept = kept_lines(ls.drop_last());
        let t = text::collapsed(ls.last());
        if t.len() > 0 || kept.len() > 0 && kept.last().len() > 0 {
            kept.push(t)
        } else {
            kept
        }
    }
}

/// Lines with single spaces, of which no two in a row are blank, nor the first.
spec fn are_squeezed(ls: Seq<Seq<char>>) -> bool {
    &&& forall|i: int|
        0 <= i < ls.len() ==> text::is_collapsed(#[trigger] ls[i]) && text::collapsed(ls[i])
            == ls[i]
    &&& ls.len() > 0 ==> ls[0].len() > 0
    &&& forall|i: int|
        0 <= i < ls.len() - 1 && (#[trigger] ls[i]).len() == 0 ==> ls[i + 1].len() > 0
}

proof fn lemma_kept_lines(ls: Seq<Seq<char>>)
    ensures
        are_squeezed(kept_lines(ls)),
        text::words_in(kept_lines(ls)) == text::words_in(ls),
        squeezed_lines(ls).0 == text::framed(kept_lines(ls)),
        squeezed_lines(ls).1 == (kept_lines(ls).len() > 0 && kept_lines(ls).last().len() == 0),
        squeezed_lines(ls).0.len() > 0 <==> kept_lines(ls).len() > 0,
    decreases ls.len(),
{
    if ls.len() > 0 {
        lemma_kept_lines(ls.drop_last());
        let before = kept_lines(ls.drop_last());
        let kept = kept_lines(ls);
        let t = text::collapsed(ls.last());
        text::lemma_collapsed(ls.last());
        text::lemma_collapsed_words(ls.last());
        text::lemma_framed_push(before, t);
        let out = text::framed(before);
        assert(out + t.push('\n') =~= (out + t).push('\n'));
        if t.len() == 0 {
            assert(out + t =~= out);
            assert(text::words(ls.last()) =~= Seq::empty());
            assert(text::words_in(before) + text::words(ls.last()) =~= text::words_in(before));
        }
        if t.len() > 0 || before.len() > 0 && before.last().len() > 0 {
            assert(kept.drop_last() =~= before);
            assert forall|i: int| 0 <= i < kept.len() implies text::is_collapsed(
                #[trigger] kept[i],
            ) && text::collapsed(kept[i]) == kept[i] by {
                if i < before.len() {
                    assert(kept[i] == before[i]);
                }
            }
            assert forall|i: int|
                0 <= i < kept.len() - 1 && (#[trigger] kept[i]).len() == 0 implies kept[i
                + 1].len() > 0 by {
                assert(kept[i] == before[i]);
                if i + 1 < before.len() {
                    assert(kept[i + 1] == before[i + 1]);
                }
            }
        }
    }
}

/// Nothing is left to do on lines that are squeezed.
proof fn lemma_kept_again(ls: Seq<Seq<char>>)
    requires
        are_squeezed(ls),
    ensures
        kept_lines(ls) == ls,
    decreases ls.len(),
{
    if ls.len() == 0 {
        assert(ls =~= Seq::empty());
    } else {
        let front = ls.drop_last();
        assert forall|i: int| 0 <= i < front.len() implies text::is_collapsed(#[trigger] front[i])
            && text::collapsed(front[i]) == front[i] by {
            assert(front[i] == ls[i]);
        }
        assert forall|i: int| 0 <= i < front.len() - 1 && (#[trigger] front[i]).len()
            == 0 implies front[i + 1].len() > 0 by {
            assert(front[i] == ls[i] && front[i + 1] == ls[i + 1]);
        }
        lemma_kept_again(front);
        assert(text::collapsed(ls[ls.len() - 1]) == ls[ls.len() - 1]);
        if front.len() > 0 {
            assert(front.last() == ls[ls.len() - 2]);
        }
        assert(front.push(ls.last()) =~= ls);
    }
}

/// No two spaces stand in a row, nor three line feeds.
pub open spec fn is_tight(s: Seq<char>) -> bool {
    &&& forall|i: int| 0 <= i < s.len() - 1 ==> !(#[trigger] s[i] == ' ' && s[i + 1] == ' ')
    &&& forall|i: int|
        0 <= i < s.len() - 2 ==> !(#[trigger] s[i] == '\n' && s[i + 1] == '\n' && s[i + 2] == '\n')
}

proof fn lemma_framed_is_tight(ls: Seq<Seq<char>>)
    requires
        are_squeezed(ls),
    ensures
        is_tight(text::framed(ls)),
        ls.len() > 0 ==> {
            let f = text::framed(ls);
            &&& f.len() >= 2
            &&& f.last() == '\n'
            &&& f[f.len() - 2] == '\n' <==> ls.last().len() == 0
            &&& !text::is_space(f[0])
            &&& ls.last().len() > 0 ==> !text::is_space(f[f.len() - 2])
        },
    decreases ls.len(),
{
    if ls.len() > 0 {
        let front = ls.drop_last();
        assert forall|i: int| 0 <= i < front.len() implies text::is_collapsed(#[trigger] front[i])
            && text::collapsed(front[i]) == front[i] by {
            assert(front[i] == ls[i]);
        }
        assert forall|i: int| 0 <= i < front.len() - 1 && (#[trigger] front[i]).len()
            == 0 implies front[i + 1].len() > 0 by {
            assert(front[i] == ls[i] && front[i + 1] == ls[i + 1]);
        }
        lemma_framed_is_tight(front);
        let line = ls.last();
        assert(line == ls[ls.len() - 1]);
        assert(text::is_collapsed(line));
        let a = text::framed(front);
        let f = text::framed(ls);
        assert(front.push(line) =~= ls);
        text::lemma_framed_push(front, line);
        let n = a.len() as int;
        assert(f == a + line.push('\n'));
        if front.len() > 0 {
            assert(front.last() == ls[ls.len() - 2]);
            assert(f[0] == a[0]);
            assert(f[n - 1] == '\n' && f[n - 2] == a[n - 2]);
        } else {
            assert(a.len() == 0);
            assert(f[0] == line[0]);
        }
        assert forall|k: int| 0 <= k < line.len() implies #[trigger] line[k] != '\n' by {
            assert(text::is_space('\n'));
        }
        assert forall|i: int| 0 <= i < f.len() - 1 implies !(#[trigger] f[i] == ' ' && f[i + 1]
            == ' ') by {
            if i + 1 < n {
                assert(f[i] == a[i] && f[i + 1] == a[i + 1]);
            } else if i >= n && i - n < line.len() {
                assert(f[i] == line[i - n]);
            }
        }
        assert forall|i: int| 0 <= i < f.len() - 2 implies !(#[trigger] f[i] == '\n' && f[i + 1]
            == '\n' && f[i + 2] == '\n') by {
            if i + 2 < n {
                assert(f[i] == a[i] && f[i + 1] == a[i + 1] && f[i + 2] == a[i + 2]);
            } else if line.len() == 0 {
                assert(f.len() == n + 1);
                assert(f[i] == a[n - 2]);
            } else {
                let k = if i < n {
                    n
                } else {
                    i
                };
                if k - n < line.len() {
                    assert(f[k] == line[k - n]);
                }
            }
        }
        if line.len() > 0 {
            assert(f[f.len() - 2] == line.last());
        }
    }
}

/// A text that does not start or end with white space, behind line feeds at most.
proof fn lemma_trim_feeds(s: Seq<char>)
    requires
        s.len() > 1,
        !text::is_space(s[0]),
        s.last() == '\n',
    ensures
        text::trim(s) == text::trim(s.drop_last()),
        !text::is_space(s[s.len() - 2]) ==> text::trim(s) == s.drop_last(),
{
    assert(text::is_space('\n'));
    assert(s.drop_last()[0] == s[0]);
    assert(text::trim_start(s) == s);
    let t = s.drop_last();
    assert(text::trim_start(t) == t);
    assert(text::trim_end(s) == text::trim_end(t));
    if !text::is_space(s[s.len() - 2]) {
        assert(t.last() == s[s.len() - 2]);
        assert(text::trim_end(t) == t);
    }
}

proof fn lemma_lines_of_squeezed(ls: Seq<Seq<char>>)
    requires
        are_squeezed(ls),
        ls.len() > 0,
        ls.last().len() > 0,
    ensures
        text::lines(text::framed(ls).drop_last()) == ls,
{
    let front = ls.drop_last();
    let line = ls.last();
    assert(line == ls[ls.len() - 1]);
    assert(text::is_space('\n') && text::is_space('\r'));
    assert forall|i: int| 0 <= i < ls.len() implies !(#[trigger] ls[i]).contains('\n')
        && !ls[i].contains('\r') by {
        assert(text::is_collapsed(ls[i]));
    }
    assert forall|i: int| 0 <= i < front.len() implies !(#[trigger] front[i]).contains('\n')
        && !front[i].contains('\r') by {
        assert(front[i] == ls[i]);
    }
    text::law_framed_lines_read_back(front);
    text::lemma_framed_push(front, line);
    assert(front.push(line) =~= ls);
    let a = text::framed(front);
    assert(text::framed(ls).drop_last() =~= a + line);
    if front.len() > 0 {
        text::lemma_framed_push(front.drop_last(), front.last());
        assert(front.drop_last().push(front.last()) =~= front);
    }
    text::lemma_torn_line(a, line);
}

/// What is left of `s` is its kept lines, without the line feed behind the last.
proof fn lemma_squeezed(s: Seq<char>)
    ensures
        ({
            let r = squeezed(s);
            let ls = kept_lines(text::lines(s));
            let full = if ls.len() > 0 && ls.last().len() == 0 {
                ls.drop_last()
            } else {
                ls
            };
            &&& are_squeezed(full)
            &&& full.len() > 0 ==> full.last().len() > 0 && r == text::framed(full).drop_last()
            &&& full.len() == 0 ==> r == Seq::<char>::empty()
        }),
{
    let ls = kept_lines(text::lines(s));
    lemma_kept_lines(text::lines(s));
    if ls.len() > 0 {
        lemma_framed_is_tight(ls);
        let f = text::framed(ls);
        lemma_trim_feeds(f);
        if ls.last().len() == 0 {
            let full = ls.drop_last();
            assert(ls[0].len() > 0);
            assert(full.len() > 0);
            assert(full.last() == ls[ls.len() - 2]);
            assert forall|i: int| 0 <= i < full.len() implies text::is_collapsed(#[trigger] full[i])
                && text::collapsed(full[i]) == full[i] by {
                assert(full[i] == ls[i]);
            }
            assert forall|i: int| 0 <= i < full.len() - 1 && (#[trigger] full[i]).len()
                == 0 implies full[i + 1].len() > 0 by {
                assert(full[i] == ls[i] && full[i + 1] == ls[i + 1]);
            }
            text::lemma_framed_push(full, ls.last());
            assert(full.push(ls.last()) =~= ls);
            assert(f.drop_last() =~= text::framed(full));
            lemma_framed_is_tight(full);
            lemma_trim_feeds(text::framed(full));
        }
    } else {
        assert(text::framed(ls) =~= Seq::empty());
        assert(text::trim(Seq::<char>::empty()) =~= Seq::empty());
    }
}

/// Collapsing white space keeps the words of a text in their order, leaves no white
/// space at the ends, no two spaces in a row and no two blank lines in a row, and
/// doing it again changes nothing.
#[verifier::rlimit(40)]
#[verifier::spinoff_prover]
pub proof fn law_squeezing_keeps_words(s: Seq<char>)
    ensures
        text::words(squeezed(s)) == text::words(s),
        text::trim(squeezed(s)) == squeezed(s),
        is_tight(squeezed(s)),
        squeezed(squeezed(s)) == squeezed(s),
{
    let r = squeezed(s);
    let ls = kept_lines(text::lines(s));
    lemma_kept_lines(text::lines(s));
    text::lemma_words_trim(squeezed_lines(text::lines(s)).0);
    text::lemma_words_of_framed(ls);
    text::lemma_words_of_lines(s);
    lemma_squeezed(s);
    let full = if ls.len() > 0 && ls.last().len() == 0 {
        ls.drop_last()
    } else {
        ls
    };
    if full.len() > 0 {
        let f = text::framed(full);
        lemma_framed_is_tight(full);
        lemma_trim_feeds(f);
        assert forall|i: int| 0 <= i < r.len() - 1 implies !(#[trigger] r[i] == ' ' && r[i + 1]
            == ' ') by {
            assert(r[i] == f[i] && r[i + 1] == f[i + 1]);
        }
        assert forall|i: int| 0 <= i < r.len() - 2 implies !(#[trigger] r[i] == '\n' && r[i + 1]
            == '\n' && r[i + 2] == '\n') by {
            assert(r[i] == f[i] && r[i + 1] == f[i + 1] && r[i + 2] == f[i + 2]);
        }
        lemma_lines_of_squeezed(full);
        lemma_kept_again(full);
        lemma_kept_lines(full);
    } else {
        assert(text::lines(r) =~= Seq::empty());
        assert(squeezed_lines(text::lines(r)).0 =~= Seq::empty());
        assert(text::trim(Seq::<char>::empty()) =~= Seq::empty());
    }
}

/// `s` with the common entities decoded.
pub open spec fn decoded(s: Seq<char>) -> Seq<char> {
    let s1 = text::replace(s, "&nbsp;"@, " "@);
    let s2 = text::replace(s1, "&amp;"@, "&"@);
    let s3 = text::replace(s2, "&lt;"@, "<"@);
    let s4 = text::replace(s3, "&gt;"@, ">"@);
    let s5 = text::replace(s4, "&quot;"@, "\""@);
    text::replace(s5, "&#39;"@, "'"@)
}

/// The prose of an HTML text.
pub open spec fn stripped(html: Seq<char>) -> Seq<char> {
    decoded(squeezed(untagged(html, 0)))
}

/// No tag is left where the tags are dropped: before entities are decoded, the
/// text holds no `<`.
pub proof fn law_no_tags_are_left(s: Seq<char>, i: int)
    ensures
        !untagged(s, i).contains('<'),
    decreases s.len() - i,
{
    let out = untagged(s, i);
    if 0 <= i < s.len() {
        if s[i] != '<' {
            law_no_tags_are_left(s, i + 1);
            lemma_concat_has_no(seq![s[i]], untagged(s, i + 1), '<');
        } else {
            match hidden_close(text::ascii_lowered(s), i) {
                Some(close) => match text::find_from(text::ascii_lowered(s), close, i) {
                    Some(e) => if i <= e && 0 < close.len() && e + close.len() <= s.len() {
                        law_no_tags_are_left(s, e + close.len());
                        lemma_concat_has_no(seq![' '], untagged(s, e + close.len()), '<');
                    },
                    None => {},
                },
                None => match text::find_from(s, seq!['>'], i) {
                    Some(e) => if i <= e < s.len() {
                        law_no_tags_are_left(s, e + 1);
                        lemma_concat_has_no(seq![' '], untagged(s, e + 1), '<');
                    },
                    None => {},
                },
            }
        }
    }
}

proof fn lemma_concat_has_no(a: Seq<char>, b: Seq<char>, c: char)
    requires
        !a.contains(c),
        !b.contains(c),
    ensures
        !(a + b).contains(c),
{
    assert forall|k: int| 0 <= k < (a + b).len() implies (a + b)[k] != c by {
        if k < a.len() {
            assert(a.contains(a[k]));
        } else {
            assert(b.contains(b[k - a.len()]));
        }
    }
}

proof fn lemma_untagged_behind(a: Seq<char>, b: Seq<char>, i: int)
    requires
        0 <= i,
    ensures
        untagged(a + b, a.len() + i) == untagged(b, i),
    decreases b.len() - i,
{
    let s = a + b;
    let low = text::ascii_lowered(s);
    let (la, lb) = (text::ascii_lowered(a), text::ascii_lowered(b));
    assert(low =~= la + lb);
    if i < b.len() {
        assert(s[a.len() + i] == b[i]);
        if b[i] != '<' {
            lemma_untagged_behind(a, b, i + 1);
        } else {
            text::lemma_occurs_behind(la, lb, "<script"@, i);
            text::lemma_occurs_behind(la, lb, "<style"@, i);
            match hidden_close(lb, i) {
                Some(close) => {
                    text::lemma_find_behind(la, lb, close, i);
                    text::lemma_find_from(lb, close, i);
                    reveal_strlit("</script>");
                    reveal_strlit("</style>");
                    if let Some(e) = text::find_from(lb, close, i) {
                        lemma_untagged_behind(a, b, e + close.len());
                    }
                },
                None => {
                    text::lemma_find_behind(a, b, seq!['>'], i);
                    text::lemma_find_from(b, seq!['>'], i);
                    if let Some(e) = text::find_from(b, seq!['>'], i) {
                        lemma_untagged_behind(a, b, e + 1);
                    }
                },
            }
        }
    }
}

/// Text outside of tags is kept, character by character.
pub proof fn law_text_is_kept(said: Seq<char>, rest: Seq<char>)
    requires
        !said.contains('<'),
    ensures
        untagged(said + rest, 0) == said + untagged(rest, 0),
    decreases said.len(),
{
    if said.len() > 0 {
        let init = said.drop_last();
        let c = said.last();
        assert(said[said.len() - 1] == c);
        assert(!init.contains('<')) by {
            if init.contains('<') {
                let k = choose|k: int| 0 <= k < init.len() && init[k] == '<';
                assert(said[k] == '<');
            }
        }
        law_text_is_kept(init, seq![c] + rest);
        assert(init + (seq![c] + rest) =~= said + rest);
        assert((seq![c] + rest)[0] == c);
        lemma_untagged_behind(seq![c], rest, 0);
        assert(init + (seq![c] + untagged(rest, 0)) =~= said + untagged(rest, 0));
    } else {
        assert(said + rest =~= rest);
        assert(said + untagged(rest, 0) =~= untagged(rest, 0));
    }
}

/// `tag` stands between the brackets of a tag that hides nothing behind it.
pub open spec fn is_plain_tag(tag: Seq<char>) -> bool {
    let low = text::ascii_lowered(tag);
    !tag.contains('>') && !"script"@.is_prefix_of(low) && !"style"@.is_prefix_of(low)
}

/// A tag leaves a space, and what stands behind it is kept, whatever the tag.
pub proof fn law_tag_leaves_a_space(tag: Seq<char>, rest: Seq<char>)
    requires
        is_plain_tag(tag),
    ensures
        untagged(seq!['<'] + tag + seq!['>'] + rest, 0) == seq![' '] + untagged(rest, 0),
{
    let whole = seq!['<'] + tag + seq!['>'];
    let s = whole + rest;
    let low = text::ascii_lowered(s);
    let e = tag.len() as int + 1;
    reveal_strlit("<script");
    reveal_strlit("<style");
    reveal_strlit("script");
    reveal_strlit("style");
    assert(s[0] == '<' && s[e] == '>');
    assert forall|k: int| 0 <= k < e implies s[k] != '>' by {
        if k > 0 {
            assert(s[k] == tag[k - 1]);
            assert(tag.contains(tag[k - 1]));
        }
    }
    assert(low[e] == '>');
    assert(!text::occurs_at(low, "<script"@, 0)) by {
        if text::occurs_at(low, "<script"@, 0) {
            let found = low.subrange(0, 7);
            assert(found == "<script"@);
            assert(low[0] == found[0] && low[1] == found[1] && low[2] == found[2] && low[3]
                == found[3] && low[4] == found[4] && low[5] == found[5] && low[6] == found[6]);
            assert(e >= 7);
            assert(text::ascii_lowered(tag).take(6) =~= "script"@) by {
                assert(forall|k: int|
                    0 <= k < 6 ==> #[trigger] text::ascii_lowered(tag)[k] == low[k + 1]);
            }
            assert("script"@.is_prefix_of(text::ascii_lowered(tag)));
        }
    }
    assert(!text::occurs_at(low, "<style"@, 0)) by {
        if text::occurs_at(low, "<style"@, 0) {
            let found = low.subrange(0, 6);
            assert(found == "<style"@);
            assert(low[0] == found[0] && low[1] == found[1] && low[2] == found[2] && low[3]
                == found[3] && low[4] == found[4] && low[5] == found[5]);
            assert(e >= 6);
            assert(text::ascii_lowered(tag).take(5) =~= "style"@) by {
                assert(forall|k: int|
                    0 <= k < 5 ==> #[trigger] text::ascii_lowered(tag)[k] == low[k + 1]);
            }
            assert("style"@.is_prefix_of(text::ascii_lowered(tag)));
        }
    }
    assert(s.subrange(e, e + 1) =~= seq!['>']);
    assert forall|j: int| 0 <= j < e implies !#[trigger] text::occurs_at(s, seq!['>'], j) by {
        if text::occurs_at(s, seq!['>'], j) {
            assert(s.subrange(j, j + 1)[0] == s[j]);
        }
    }
    text::lemma_found_at(s, seq!['>'], 0, e);
    lemma_untagged_behind(whole, rest, 0);
}

/// `s` is an element of this name with all that it holds, up to the first place where
/// it is closed. Upper and lower case are one.
pub open spec fn is_element(s: Seq<char>, open: Seq<char>, close: Seq<char>) -> bool {
    let low = text::ascii_lowered(s);
    &&& open.is_prefix_of(low)
    &&& text::occurs_at(low, close, low.len() - close.len())
    &&& forall|j: int| 0 <= j < low.len() - close.len() ==> !#[trigger] text::occurs_at(low, close, j)
}

/// A script or a style sheet leaves a space, with all that it holds; what stands
/// behind it is kept.
pub proof fn law_hidden_element_leaves_a_space(element: Seq<char>, rest: Seq<char>)
    requires
        is_element(element, "<script"@, "</script>"@) || is_element(
            element,
            "<style"@,
            "</style>"@,
        ),
    ensures
        untagged(element + rest, 0) == seq![' '] + untagged(rest, 0),
{
    let s = element + rest;
    let low = text::ascii_lowered(s);
    let le = text::ascii_lowered(element);
    reveal_strlit("<script");
    reveal_strlit("<style");
    reveal_strlit("</script>");
    reveal_strlit("</style>");
    let script = is_element(element, "<script"@, "</script>"@);
    let open = if script {
        "<script"@
    } else {
        "<style"@
    };
    let close = if script {
        "</script>"@
    } else {
        "</style>"@
    };
    assert(open[0] == '<' && open[2] == (if script {
        'c'
    } else {
        't'
    }));
    assert(le.take(open.len() as int) =~= open);
    assert forall|k: int| 0 <= k < open.len() implies #[trigger] low[k] == open[k] by {
        assert(le.take(open.len() as int)[k] == open[k]);
    }
    assert(low[0] == '<');
    assert(s[0] == '<');
    assert(low.subrange(0, open.len() as int) =~= open);
    assert(text::occurs_at(low, open, 0));
    if !script {
        assert(!text::occurs_at(low, "<script"@, 0)) by {
            if text::occurs_at(low, "<script"@, 0) {
                assert(low.subrange(0, 7)[2] == low[2]);
                assert(low[2] == "<script"@[2]);
            }
        }
    }
    let e = le.len() - close.len();
    assert(low.subrange(e, e + close.len()) =~= le.subrange(e, e + close.len()));
    assert(text::occurs_at(low, close, e));
    assert forall|j: int| 0 <= j < e implies !#[trigger] text::occurs_at(low, close, j) by {
        assert(low.subrange(j, j + close.len()) =~= le.subrange(j, j + close.len()));
        assert(!text::occurs_at(le, close, j));
    }
    text::lemma_found_at(low, close, 0, e);
    lemma_untagged_behind(element, rest, 0);
}

/// A page of texts with tags between them.
pub open spec fn tagged_page(texts: Seq<Seq<char>>, tags: Seq<Seq<char>>) -> Seq<char>
    decreases tags.len(),
{
    if tags.len() == 0 {
        texts[0]
    } else {
        texts[0] + seq!['<'] + tags[0] + seq!['>'] + tagged_page(texts.skip(1), tags.skip(1))
    }
}

/// Of a page of texts and tags, the texts are kept with one space for each tag: every
/// word that stands between two tags is a word of what is left.
pub proof fn law_words_between_tags_are_kept(texts: Seq<Seq<char>>, tags: Seq<Seq<char>>)
    requires
        texts.len() == tags.len() + 1,
        forall|i: int| 0 <= i < texts.len() ==> !#[trigger] texts[i].contains('<'),
        forall|i: int| 0 <= i < tags.len() ==> is_plain_tag(#[trigger] tags[i]),
    ensures
        untagged(tagged_page(texts, tags), 0) == text::join(texts, seq![' ']),
        text::words(untagged(tagged_page(texts, tags), 0)) == texts.flat_map(
            |t: Seq<char>| text::words(t),
        ),
        text::words(squeezed(untagged(tagged_page(texts, tags), 0))) == texts.flat_map(
            |t: Seq<char>| text::words(t),
        ),
    decreases tags.len(),
{
    let f = |t: Seq<char>| text::words(t);
    let html = tagged_page(texts, tags);
    let first = texts[0];
    assert(seq![first].drop_last() =~= Seq::empty());
    assert(Seq::<Seq<char>>::empty().map_values(f) =~= Seq::empty());
    text::lemma_flat_map_last(seq![first], f);
    assert(seq![first].flat_map(f) =~= text::words(first));
    if tags.len() > 0 {
        let (more, others) = (texts.skip(1), tags.skip(1));
        law_words_between_tags_are_kept(more, others);
        let rest = tagged_page(more, others);
        let tag = seq!['<'] + tags[0] + seq!['>'];
        assert(html =~= first + (tag + rest));
        law_text_is_kept(first, tag + rest);
        law_tag_leaves_a_space(tags[0], rest);
        assert(texts =~= seq![first] + more);
        text::lemma_join_first(first, more, seq![' ']);
        let out = untagged(html, 0);
        assert(out =~= first + seq![' '] + untagged(rest, 0));
        text::lemma_words_split(first, ' ', untagged(rest, 0));
        text::lemma_flat_map_add(seq![first], more, f);
    } else {
        assert(html =~= first + Seq::<char>::empty());
        law_text_is_kept(first, Seq::empty());
        assert(first + untagged(Seq::empty(), 0) =~= first);
        assert(texts =~= seq![first]);
    }
    law_squeezing_keeps_words(untagged(html, 0));
}

/// A tag that is never closed takes the rest with it, and so does a script or a style
/// sheet, which leaves a space.
pub proof fn law_open_end_is_dropped(tag: Seq<char>)
    requires
        !tag.contains('>'),
    ensures
        is_plain_tag(tag) ==> untagged(seq!['<'] + tag, 0) == Seq::<char>::empty(),
        !is_plain_tag(tag) ==> untagged(seq!['<'] + tag, 0) == seq![' '],
{
    let s = seq!['<'] + tag;
    let low = text::ascii_lowered(s);
    let lt = text::ascii_lowered(tag);
    reveal_strlit("<script");
    reveal_strlit("<style");
    reveal_strlit("script");
    reveal_strlit("style");
    reveal_strlit("</script>");
    reveal_strlit("</style>");
    assert(low =~= seq!['<'] + lt);
    assert("<script"@ =~= seq!['<'] + "script"@);
    assert("<style"@ =~= seq!['<'] + "style"@);
    lemma_prefix_behind(lt, "script"@);
    lemma_prefix_behind(lt, "style"@);
    assert forall|j: int| 0 <= j implies !#[trigger] text::occurs_at(s, seq!['>'], j) by {
        if text::occurs_at(s, seq!['>'], j) {
            assert(s.subrange(j, j + 1)[0] == s[j]);
            assert(tag.contains(tag[j - 1]));
        }
    }
    text::lemma_find_from(s, seq!['>'], 0);
    text::lemma_find_from(low, "</script>"@, 0);
    text::lemma_find_from(low, "</style>"@, 0);
    assert forall|j: int| 0 <= j implies !#[trigger] text::occurs_at(low, "</script>"@, j) by {
        if text::occurs_at(low, "</script>"@, j) {
            assert(low.subrange(j, j + 9)[8] == low[j + 8]);
            assert(low[j + 8] == '>');
            assert(tag.contains(tag[j + 7]));
        }
    }
    assert forall|j: int| 0 <= j implies !#[trigger] text::occurs_at(low, "</style>"@, j) by {
        if text::occurs_at(low, "</style>"@, j) {
            assert(low.subrange(j, j + 8)[7] == low[j + 7]);
            assert(low[j + 7] == '>');
            assert(tag.contains(tag[j + 6]));
        }
    }
}

proof fn lemma_prefix_behind(s: Seq<char>, p: Seq<char>)
    ensures
        text::occurs_at(seq!['<'] + s, seq!['<'] + p, 0) == p.is_prefix_of(s),
{
    let all = seq!['<'] + s;
    let n = p.len() as int;
    if p.len() <= s.len() {
        assert(all.subrange(0, n + 1) =~= seq!['<'] + s.take(n));
        if all.subrange(0, n + 1) == seq!['<'] + p {
            assert((seq!['<'] + p).skip(1) =~= p);
            assert((seq!['<'] + s.take(n)).skip(1) =~= s.take(n));
            assert(p =~= s.take(n));
        }
        if p.is_prefix_of(s) {
            assert(p =~= s.take(n));
        }
    }
}

fn drop_tags(html: &str) -> (r: String)
    ensures
        r@ == untagged(html@, 0),
{
    let cs = text::chars_of(html);
    let room: usize = cs.len();
    let low = text::ascii_lower_chars(&cs);
    let script = text::chars_of("<script");
    let style = text::chars_of("<style");
    let script_end = text::chars_of("</script>");
    let style_end = text::chars_of("</style>");
    let gt: Vec<char> = vec!['>'];
    assert(gt@ =~= seq!['>']);
    proof {
        reveal_strlit("</script>");
        reveal_strlit("</style>");
    }
    let mut out = String::new();
    let mut i: usize = 0;
    assert(out@ + untagged(html@, 0) =~= untagged(html@, 0));
    while i < cs.len()
        invariant
            i <= cs@.len(),
            room == cs@.len(),
            cs@ == html@,
            low@ == text::ascii_lowered(html@),
            script@ == "<script"@,
            style@ == "<style"@,
            script_end@ == "</script>"@,
            style_end@ == "</style>"@,
            script_end@.len() == 9,
            style_end@.len() == 8,
            gt@ == seq!['>'],
            untagged(html@, 0) == out@ + untagged(html@, i as int),
        decreases cs@.len() - i,
    {
        let ghost before = out@;
        if cs[i] != '<' {
            out.push(cs[i]);
            assert(before + (seq![cs@[i as int]] + untagged(html@, i + 1)) =~= out@ + untagged(
                html@,
                i + 1,
            ));
            i += 1;
            continue;
        }
        let hides_script = text::stands_at(low.as_slice(), script.as_slice(), i);
        let hides_style = !hides_script && text::stands_at(low.as_slice(), style.as_slice(), i);
        if hides_script || hides_style {
            let close = if hides_script {
                &script_end
            } else {
                &style_end
            };
            proof {
                text::lemma_find_from(low@, close@, i as int);
            }
            let next: usize = match text::find_in(low.as_slice(), close.as_slice(), i) {
                Some(e) => e + close.len(),
                None => cs.len(),
            };
            out.push(' ');
            assert(before + (seq![' '] + untagged(html@, next as int)) =~= out@ + untagged(
                html@,
                next as int,
            ));
            assert(untagged(html@, room as int) =~= Seq::empty());
            assert(seq![' '] + Seq::<char>::empty() =~= seq![' ']);
            i = next;
        } else {
            proof {
                text::lemma_find_from(cs@, seq!['>'], i as int);
            }
            match text::find_in(cs.as_slice(), gt.as_slice(), i) {
                Some(e) => {
                    out.push(' ');
                    assert(before + (seq![' '] + untagged(html@, e + 1)) =~= out@ + untagged(
                        html@,
                        e + 1,
                    ));
                    i = e + 1;
                },
                None => {
                    assert(out@ + Seq::<char>::empty() =~= out@);
                    return out;
                },
            }
        }
    }
    assert(out@ + Seq::<char>::empty() =~= out@);
    out
}

/// A text with runs of white space inside lines made one space, and runs of blank
/// lines made one.
pub fn collapse_whitespace(s: &str) -> (r: String)
    ensures
        r@ == squeezed(s@),
{
    let lines = text::lines_of(s);
    let ghost all = text::lines(s@);
    let mut out = String::new();
    let mut blank = false;
    let mut i: usize = 0;
    assert(all.take(0) =~= Seq::empty());
    while i < lines.len()
        invariant
            i <= lines@.len(),
            text::views(lines@) == all,
            squeezed_lines(all.take(i as int)) == (out@, blank),
        decreases lines@.len() - i,
    {
        assert(all.take(i + 1).drop_last() =~= all.take(i as int));
        assert(all.take(i + 1).last() == lines@[i as int]@);
        let t = text::collapse(lines[i].as_str());
        if t.as_str().is_empty() {
            if !blank && !out.as_str().is_empty() {
                out.push('\n');
                blank = true;
            }
        } else {
            out.push_str(t.as_str());
            out.push('\n');
            blank = false;
        }
        i += 1;
    }
    assert(all.take(i as int) =~= all);
    text::trimmed(out.as_str())
}

fn decode_entities(s: &str) -> (r: String)
    ensures
        r@ == decoded(s@),
{
    let s1 = text::str_replace(s, "&nbsp;", " ");
    let s2 = text::str_replace(s1.as_str(), "&amp;", "&");
    let s3 = text::str_replace(s2.as_str(), "&lt;", "<");
    let s4 = text::str_replace(s3.as_str(), "&gt;", ">");
    let s5 = text::str_replace(s4.as_str(), "&quot;", "\"");
    text::str_replace(s5.as_str(), "&#39;", "'")
}

/// The prose of an HTML text: scripts and styles dropped with their contents, all
/// tags dropped, white space collapsed, entities decoded.
pub fn strip_html(html: &str) -> (r: String)
    ensures
        r@ == stripped(html@),
{
    let bare = drop_tags(html);
    let squeezed = collapse_whitespace(bare.as_str());
    decode_entities(squeezed.as_str())
}

proof fn lemma_no_entity(s: Seq<char>, entity: Seq<char>, to: Seq<char>)
    requires
        entity.len() > 0,
        entity[0] == '&',
        !s.contains('&'),
    ensures
        text::replace(s, entity, to) == s,
{
    assert forall|i: int| !#[trigger] text::occurs_at(s, entity, i) by {
        if text::occurs_at(s, entity, i) {
            assert(s.subrange(i, i + entity.len())[0] == s[i]);
            assert(s.contains(s[i]));
        }
    }
    text::law_replacing_nothing(s, entity, to);
}

/// Text that holds no entity is left as it is.
pub proof fn law_text_without_entities_stays(s: Seq<char>)
    requires
        !s.contains('&'),
    ensures
        decoded(s) == s,
{
    reveal_strlit("&nbsp;");
    reveal_strlit("&lt;");
    reveal_strlit("&gt;");
    reveal_strlit("&quot;");
    reveal_strlit("&#39;");
    reveal_strlit("&amp;");
    lemma_no_entity(s, "&nbsp;"@, " "@);
    lemma_no_entity(s, "&amp;"@, "&"@);
    lemma_no_entity(s, "&lt;"@, "<"@);
    lemma_no_entity(s, "&gt;"@, ">"@);
    lemma_no_entity(s, "&quot;"@, "\""@);
    lemma_no_entity(s, "&#39;"@, "'"@);
}

/// Every word between two tags of a page without entities is read, in order.
pub proof fn law_words_of_a_page_are_read(texts: Seq<Seq<char>>, tags: Seq<Seq<char>>)
    requires
        texts.len() == tags.len() + 1,
        forall|i: int| 0 <= i < texts.len() ==> !#[trigger] texts[i].contains('<'),
        forall|i: int| 0 <= i < texts.len() ==> !#[trigger] texts[i].contains('&'),
        forall|i: int| 0 <= i < tags.len() ==> is_plain_tag(#[trigger] tags[i]),
    ensures
        text::words(stripped(tagged_page(texts, tags))) == texts.flat_map(
            |t: Seq<char>| text::words(t),
        ),
{
    law_words_between_tags_are_kept(texts, tags);
    let kept = text::join(texts, seq![' ']);
    lemma_join_holds_no(texts, '&');
    lemma_squeezed_holds_no(kept, '&');
    law_text_without_entities_stays(squeezed(kept));
}

proof fn lemma_join_holds_no(texts: Seq<Seq<char>>, c: char)
    requires
        c != ' ',
        forall|i: int| 0 <= i < texts.len() ==> !#[trigger] texts[i].contains(c),
    ensures
        !text::join(texts, seq![' ']).contains(c),
    decreases texts.len(),
{
    if texts.len() > 0 {
        let last = texts.last();
        assert(last == texts[texts.len() - 1]);
        if texts.len() > 1 {
            let init = texts.drop_last();
            assert forall|i: int| 0 <= i < init.len() implies !#[trigger] init[i].contains(c) by {
                assert(init[i] == texts[i]);
            }
            lemma_join_holds_no(init, c);
            let a = text::join(init, seq![' ']);
            assert(!seq![' '].contains(c));
            lemma_concat_has_no(a, seq![' '], c);
            lemma_concat_has_no(a + seq![' '], last, c);
        }
    }
}

proof fn lemma_squeezed_holds_no(s: Seq<char>, c: char)
    requires
        !text::is_space(c),
        !s.contains(c),
    ensures
        !squeezed(s).contains(c),
{
    let t = squeezed(s);
    law_squeezing_keeps_words(s);
    text::law_words_hold_every_character(s);
    text::law_words_hold_every_character(t);
    let p = |c: char| !text::is_space(c);
    if t.contains(c) {
        let k = choose|k: int| 0 <= k < t.len() && t[k] == c;
        t.lemma_filter_contains(p, k);
        s.lemma_filter_contains_rev(p, c);
    }
}

proof fn lemma_entity_places(a: Seq<char>, e: Seq<char>, b: Seq<char>, i: int)
    requires
        !a.contains('&'),
        !b.contains('&'),
        e.len() > 1,
        e[0] == '&',
        !e.skip(1).contains('&'),
        0 <= i < (a + e + b).len(),
        (a + e + b)[i] == '&',
    ensures
        i == a.len(),
{
    let s = a + e + b;
    if i < a.len() {
        assert(a.contains(a[i]));
    } else if i >= a.len() + e.len() {
        assert(b.contains(b[i - a.len() - e.len()]));
    } else if i > a.len() {
        assert(e.skip(1)[i - a.len() - 1] == s[i]);
        assert(e.skip(1).contains(e.skip(1)[i - a.len() - 1]));
    }
}

proof fn lemma_entity(a: Seq<char>, e: Seq<char>, b: Seq<char>, other: Seq<char>, to: Seq<char>)
    requires
        !a.contains('&'),
        !b.contains('&'),
        e.len() > 1,
        e[0] == '&',
        !e.skip(1).contains('&'),
        other == e || other.len() > 1 && other[0] == '&' && other[1] != e[1],
    ensures
        other == e ==> text::replace(a + e + b, other, to) == a + to + b,
        other != e ==> text::replace(a + e + b, other, to) == a + e + b,
{
    let s = a + e + b;
    let n = a.len() as int;
    assert forall|i: int| #[trigger] text::occurs_at(s, other, i) implies i == n && other == e by {
        let found = s.subrange(i, i + other.len());
        assert(found[0] == s[i] && found[1] == s[i + 1]);
        lemma_entity_places(a, e, b, i);
        assert(s[n + 1] == e[1]);
    }
    if other == e {
        assert(s.subrange(n, n + e.len()) =~= e);
        assert(text::occurs_at(s, e, n));
        text::law_replacing_once(a, e, b, to);
    } else {
        text::law_replacing_nothing(s, other, to);
    }
}

/// A common entity is decoded, and what stands around it is left as it is.
pub proof fn law_entities_are_decoded(a: Seq<char>, b: Seq<char>)
    requires
        !a.contains('&'),
        !b.contains('&'),
    ensures
        decoded(a + "&nbsp;"@ + b) == a + " "@ + b,
        decoded(a + "&lt;"@ + b) == a + "<"@ + b,
        decoded(a + "&gt;"@ + b) == a + ">"@ + b,
        decoded(a + "&quot;"@ + b) == a + "\""@ + b,
        decoded(a + "&#39;"@ + b) == a + "'"@ + b,
{
    reveal_strlit("&nbsp;");
    reveal_strlit("&amp;");
    reveal_strlit("&lt;");
    reveal_strlit("&gt;");
    reveal_strlit("&quot;");
    reveal_strlit("&#39;");
    reveal_strlit(" ");
    reveal_strlit("<");
    reveal_strlit(">");
    reveal_strlit("\"");
    reveal_strlit("'");
    assert("&nbsp;"@.len() == 6 && "&nbsp;"@[0] == '&' && "&nbsp;"@[1] == 'n');
    assert("&amp;"@.len() == 5 && "&amp;"@[0] == '&' && "&amp;"@[1] == 'a');
    assert("&lt;"@.len() == 4 && "&lt;"@[0] == '&' && "&lt;"@[1] == 'l');
    assert("&gt;"@.len() == 4 && "&gt;"@[0] == '&' && "&gt;"@[1] == 'g');
    assert("&quot;"@.len() == 6 && "&quot;"@[0] == '&' && "&quot;"@[1] == 'q');
    assert("&#39;"@.len() == 5 && "&#39;"@[0] == '&' && "&#39;"@[1] == '#');
    lemma_decoded_one(a, "&nbsp;"@, b, " "@);
    lemma_decoded_one(a, "&lt;"@, b, "<"@);
    lemma_decoded_one(a, "&gt;"@, b, ">"@);
    lemma_decoded_one(a, "&quot;"@, b, "\""@);
    lemma_decoded_one(a, "&#39;"@, b, "'"@);
}

proof fn lemma_decoded_one(a: Seq<char>, e: Seq<char>, b: Seq<char>, to: Seq<char>)
    requires
        !a.contains('&'),
        !b.contains('&'),
        e == "&nbsp;"@ && to == " "@
            || e == "&lt;"@ && to == "<"@
            || e == "&gt;"@ && to == ">"@
            || e == "&quot;"@ && to == "\""@
            || e == "&#39;"@ && to == "'"@,
    ensures
        decoded(a + e + b) == a + to + b,
{
    reveal_strlit("&nbsp;");
    reveal_strlit("&amp;");
    reveal_strlit("&lt;");
    reveal_strlit("&gt;");
    reveal_strlit("&quot;");
    reveal_strlit("&#39;");
    reveal_strlit(" ");
    reveal_strlit("<");
    reveal_strlit(">");
    reveal_strlit("\"");
    reveal_strlit("'");
    assert("&nbsp;"@.len() == 6 && "&nbsp;"@[0] == '&' && "&nbsp;"@[1] == 'n');
    assert("&amp;"@.len() == 5 && "&amp;"@[0] == '&' && "&amp;"@[1] == 'a');
    assert("&lt;"@.len() == 4 && "&lt;"@[0] == '&' && "&lt;"@[1] == 'l');
    assert("&gt;"@.len() == 4 && "&gt;"@[0] == '&' && "&gt;"@[1] == 'g');
    assert("&quot;"@.len() == 6 && "&quot;"@[0] == '&' && "&quot;"@[1] == 'q');
    assert("&#39;"@.len() == 5 && "&#39;"@[0] == '&' && "&#39;"@[1] == '#');
    assert(!e.skip(1).contains('&')) by {
        let rest = e.skip(1);
        assert forall|k: int| 0 <= k < rest.len() implies rest[k] != '&' by {
            assert(rest[k] == e[k + 1]);
        }
    }
    assert(to.len() == 1 && to[0] != '&');
    let s = a + to + b;
    assert(!s.contains('&')) by {
        assert forall|k: int| 0 <= k < s.len() implies s[k] != '&' by {
            if k < a.len() {
                assert(a.contains(a[k]));
            } else if k > a.len() {
                assert(b.contains(b[k - a.len() - 1]));
            }
        }
    }
    lemma_entity(a, e, b, "&nbsp;"@, " "@);
    lemma_no_entity(s, "&nbsp;"@, " "@);
    lemma_entity(a, e, b, "&amp;"@, "&"@);
    lemma_no_entity(s, "&amp;"@, "&"@);
    lemma_entity(a, e, b, "&lt;"@, "<"@);
    lemma_no_entity(s, "&lt;"@, "<"@);
    lemma_entity(a, e, b, "&gt;"@, ">"@);
    lemma_no_entity(s, "&gt;"@, ">"@);
    lemma_entity(a, e, b, "&quot;"@, "\""@);
    lemma_no_entity(s, "&quot;"@, "\""@);
    lemma_entity(a, e, b, "&#39;"@, "'"@);
    lemma_no_entity(s, "&#39;"@, "'"@);
}

/// A page that is not HTML is shown as it is where it is short enough, and an HTML page
/// as its prose. One that could not be had is an error that tells the status.
pub proof fn law_page_is_shown(
    success: bool,
    status: Seq<char>,
    content_type: Seq<char>,
    body: Seq<char>,
)
    ensures
        ({
            let html = exists|i: int| #[trigger] text::occurs_at(content_type, "html"@, i);
            let readable = if html {
                stripped(body)
            } else {
                body
            };
            let r = page(success, status, content_type, body);
            &&& r.is_error <==> !success
            &&& text::byte_len(readable) <= MAX_BYTES && success ==> r.content == readable
            &&& text::byte_len(readable) <= MAX_BYTES && !success ==> r.content == "HTTP "@ + status
                + "\n\n"@ + readable
        }),
{
    text::lemma_find_from(content_type, "html"@, 0);
}

/// A page is asked for by an address that begins with http or https.
pub proof fn law_fetch_needs_an_address(args: JsonModel)
    ensures
        request_error(args) is None <==> (args.str_at("url"@) matches Some(u) && (
        "http://"@.is_prefix_of(u) || "https://"@.is_prefix_of(u))),
        request_error(args) matches Some(e) ==> e.is_error,
{
}

proof fn lemma_kept_text(before: Seq<Seq<char>>, more: Seq<Seq<char>>)
    requires
        forall|i: int| 0 <= i < more.len() ==> text::words(#[trigger] more[i]).len() > 0,
    ensures
        kept_lines(before + more) == kept_lines(before) + more.map_values(
            |l: Seq<char>| text::collapsed(l),
        ),
    decreases more.len(),
{
    let f = |l: Seq<char>| text::collapsed(l);
    let all = before + more;
    if more.len() > 0 {
        let init = more.drop_last();
        assert forall|i: int| 0 <= i < init.len() implies text::words(
            #[trigger] init[i],
        ).len() > 0 by {
            assert(init[i] == more[i]);
        }
        lemma_kept_text(before, init);
        assert(all.drop_last() =~= before + init);
        assert(all.last() == more[more.len() - 1]);
        text::lemma_collapsed(all.last());
        assert(kept_lines(all) =~= kept_lines(before) + more.map_values(f));
    } else {
        assert(all =~= before);
        assert(kept_lines(all) =~= kept_lines(before) + more.map_values(f));
    }
}

proof fn lemma_kept_blanks(before: Seq<Seq<char>>, blanks: Seq<Seq<char>>)
    requires
        kept_lines(before).len() > 0,
        kept_lines(before).last().len() > 0,
        forall|i: int| 0 <= i < blanks.len() ==> text::words(#[trigger] blanks[i]).len() == 0,
    ensures
        blanks.len() > 0 ==> kept_lines(before + blanks) == kept_lines(before).push(Seq::empty()),
        blanks.len() == 0 ==> kept_lines(before + blanks) == kept_lines(before),
    decreases blanks.len(),
{
    let all = before + blanks;
    if blanks.len() > 0 {
        let init = blanks.drop_last();
        assert forall|i: int| 0 <= i < init.len() implies text::words(
            #[trigger] init[i],
        ).len() == 0 by {
            assert(init[i] == blanks[i]);
        }
        lemma_kept_blanks(before, init);
        assert(all.drop_last() =~= before + init);
        assert(all.last() == blanks[blanks.len() - 1]);
        text::lemma_collapsed(all.last());
        assert(text::collapsed(all.last()) =~= Seq::empty());
    } else {
        assert(all =~= before);
    }
}

/// Lines stay lines and paragraphs stay apart: every line with words is a line of what is
/// left, its words one space apart, and where blank lines stood between two of them, however
/// many, one blank line stands.
pub proof fn law_paragraphs_stay_apart(
    a: Seq<Seq<char>>,
    blanks: Seq<Seq<char>>,
    b: Seq<Seq<char>>,
)
    requires
        a.len() > 0,
        b.len() > 0,
        forall|i: int| 0 <= i < a.len() ==> text::words(#[trigger] a[i]).len() > 0,
        forall|i: int| 0 <= i < b.len() ==> text::words(#[trigger] b[i]).len() > 0,
        forall|i: int| 0 <= i < blanks.len() ==> text::words(#[trigger] blanks[i]).len() == 0,
        forall|i: int|
            0 <= i < (a + blanks + b).len() ==> !(#[trigger] (a + blanks + b)[i]).contains('\n')
                && !(a + blanks + b)[i].contains('\r'),
    ensures
        text::lines(squeezed(text::framed(a + blanks + b))) == a.map_values(
            |l: Seq<char>| text::join(text::words(l), seq![' ']),
        ) + (if blanks.len() > 0 {
            seq![Seq::<char>::empty()]
        } else {
            Seq::empty()
        }) + b.map_values(|l: Seq<char>| text::join(text::words(l), seq![' '])),
{
    let ls = a + blanks + b;
    let s = text::framed(ls);
    let f = |l: Seq<char>| text::collapsed(l);
    let g = |l: Seq<char>| text::join(text::words(l), seq![' ']);
    let none = Seq::<Seq<char>>::empty();
    text::law_framed_lines_read_back(ls);
    lemma_kept_text(none, a);
    assert(none + a =~= a);
    assert(kept_lines(none) + a.map_values(f) =~= a.map_values(f));
    assert(a.map_values(f) =~= a.map_values(g));
    assert(b.map_values(f) =~= b.map_values(g));
    let kept = kept_lines(a);
    assert(kept.last() == text::collapsed(a[a.len() - 1]));
    text::lemma_collapsed(a[a.len() - 1]);
    lemma_kept_blanks(a, blanks);
    lemma_kept_text(a + blanks, b);
    let all = kept_lines(ls);
    assert(all.last() == text::collapsed(b[b.len() - 1]));
    text::lemma_collapsed(b[b.len() - 1]);
    lemma_squeezed(s);
    lemma_lines_of_squeezed(all);
    assert(all =~= a.map_values(g) + (if blanks.len() > 0 {
        seq![Seq::<char>::empty()]
    } else {
        Seq::empty()
    }) + b.map_values(g));
}

} // verus!
