//! The command line: the file that keeps the access token, and the list of
//! conversations.
use crate::session::{MetaModel, SessionMeta};
use crate::text;
use vstd::prelude::*;

verus! {

broadcast use vstd::std_specs::vec::axiom_spec_len;

/// What the line that keeps the token starts with.
pub const TOKEN_LINE: &'static str = "export RUSTCLAW_TOKEN=";

/// A line that keeps a token.
pub open spec fn is_token_line(line: Seq<char>) -> bool {
    TOKEN_LINE@.is_prefix_of(text::trim(line))
}

/// `s` without the quotation marks it starts with.
pub open spec fn trim_quotes_start(s: Seq<char>) -> Seq<char>
    decreases s.len(),
{
    if s.len() > 0 && s[0] == '"' {
        trim_quotes_start(s.skip(1))
    } else {
        s
    }
}

/// `s` without the quotation marks it ends with.
pub open spec fn trim_quotes_end(s: Seq<char>) -> Seq<char>
    decreases s.len(),
{
    if s.len() > 0 && s.last() == '"' {
        trim_quotes_end(s.drop_last())
    } else {
        s
    }
}

/// `s` without the quotation marks at both ends.
pub open spec fn unquoted(s: Seq<char>) -> Seq<char> {
    trim_quotes_end(trim_quotes_start(s))
}

fn unquote(s: &str) -> (r: String)
    ensures
        r@ == unquoted(s@),
{
    let cs = text::chars_of(s);
    let mut a: usize = 0;
    assert(cs@.skip(0) =~= cs@);
    while a < cs.len() && cs[a] == '"'
        invariant
            a <= cs@.len(),
            trim_quotes_start(cs@) == trim_quotes_start(cs@.skip(a as int)),
        decreases cs@.len() - a,
    {
        assert(cs@.skip(a as int).skip(1) =~= cs@.skip(a + 1));
        a += 1;
    }
    let ghost t = cs@.skip(a as int);
    let mut b: usize = cs.len();
    assert(cs@.subrange(a as int, b as int) =~= t);
    while b > a && cs[b - 1] == '"'
        invariant
            a <= b <= cs@.len(),
            t == cs@.skip(a as int),
            trim_quotes_end(t) == trim_quotes_end(cs@.subrange(a as int, b as int)),
        decreases b,
    {
        assert(cs@.subrange(a as int, b as int).drop_last() =~= cs@.subrange(a as int, b - 1));
        b -= 1;
    }
    text::slice_of(cs.as_slice(), a, b)
}

/// The token that the first line of `ls` that keeps one keeps.
pub open spec fn token_in(ls: Seq<Seq<char>>) -> Option<Seq<char>>
    decreases ls.len(),
{
    if ls.len() == 0 {
        None
    } else if is_token_line(ls[0]) {
        Some(unquoted(text::trim(ls[0]).skip(TOKEN_LINE@.len() as int)))
    } else {
        token_in(ls.skip(1))
    }
}

/// The token that the file keeps, if it keeps one.
pub fn current_token(existing: &str) -> (r: Option<String>)
    ensures
        match r {
            Some(t) => token_in(text::lines(existing@)) == Some(t@),
            None => token_in(text::lines(existing@)) is None,
        },
{
    let lines = text::lines_of(existing);
    let ghost all = text::lines(existing@);
    let mut i: usize = 0;
    assert(all.skip(0) =~= all);
    while i < lines.len()
        invariant
            i <= lines@.len(),
            text::views(lines@) == all,
            all == text::lines(existing@),
            token_in(all) == token_in(all.skip(i as int)),
        decreases lines@.len() - i,
    {
        assert(all.skip(i as int)[0] == lines@[i as int]@);
        assert(all.skip(i as int).skip(1) =~= all.skip(i + 1));
        let t = text::trimmed(lines[i].as_str());
        if let Some(v) = text::strip_prefix_of(t.as_str(), TOKEN_LINE) {
            return Some(unquote(v.as_str()));
        }
        i += 1;
    }
    None
}

/// The token that is kept as it is: the one the file keeps, unless it is to be
/// replaced. Where there is none, a new one is to be made.
pub fn kept_token(existing: &str, rotate: bool) -> (r: Option<String>)
    ensures
        text::opt(r) == (if rotate {
            None
        } else {
            token_in(text::lines(existing@))
        }),
{
    if rotate {
        None
    } else {
        current_token(existing)
    }
}

/// The lines that keep no token.
pub open spec fn other_lines(ls: Seq<Seq<char>>) -> Seq<Seq<char>>
    decreases ls.len(),
{
    if ls.len() == 0 {
        Seq::empty()
    } else if is_token_line(ls.last()) {
        other_lines(ls.drop_last())
    } else {
        other_lines(ls.drop_last()).push(ls.last())
    }
}

/// What is kept of the file: the other lines, the last of them ended.
pub open spec fn kept(existing: Seq<char>) -> Seq<char> {
    let body = text::join(other_lines(text::lines(existing)), "\n"@);
    if body.len() == 0 || body.last() == '\n' {
        body
    } else {
        body.push('\n')
    }
}

/// The file with this token in place of the one it kept.
pub open spec fn replaced(existing: Seq<char>, token: Seq<char>) -> Seq<char> {
    kept(existing) + (TOKEN_LINE@ + "\""@ + token + "\""@).push('\n')
}

/// The file with this token in place of the one it kept; everything else in it
/// stays.
pub fn replace_token(existing: &str, token: &str) -> (r: String)
    ensures
        r@ == replaced(existing@, token@),
{
    let lines = text::lines_of(existing);
    let ghost all = text::lines(existing@);
    let mut others: Vec<String> = Vec::new();
    let mut i: usize = 0;
    assert(all.take(0) =~= Seq::empty());
    assert(text::views(others@) =~= Seq::empty());
    while i < lines.len()
        invariant
            i <= lines@.len(),
            text::views(lines@) == all,
            text::views(others@) == other_lines(all.take(i as int)),
        decreases lines@.len() - i,
    {
        assert(all.take(i + 1).drop_last() =~= all.take(i as int));
        assert(all.take(i + 1).last() == lines@[i as int]@);
        let ghost before = others@;
        let t = text::trimmed(lines[i].as_str());
        if !text::str_starts_with(t.as_str(), TOKEN_LINE) {
            others.push(lines[i].clone());
            assert(text::views(others@) =~= text::views(before).push(lines@[i as int]@));
        }
        i += 1;
    }
    assert(all.take(i as int) =~= all);
    let mut out = text::join_strings(&others, "\n");
    let cs = text::chars_of(out.as_str());
    if cs.len() > 0 && cs[cs.len() - 1] != '\n' {
        out.push('\n');
    }
    let mut line = TOKEN_LINE.to_owned();
    line.push_str("\"");
    line.push_str(token);
    line.push_str("\"");
    line.push('\n');
    out.push_str(line.as_str());
    out
}

/// A token that was written is read back, whatever the file held before.
pub proof fn law_token_is_read_back(existing: Seq<char>, token: Seq<char>)
    requires
        token.len() > 0,
        !token.contains('\n'),
        !token.contains('\r'),
        token[0] != '"',
        token.last() != '"',
    ensures
        token_in(text::lines(replaced(existing, token))) == Some(token),
{
    reveal_strlit("export RUSTCLAW_TOKEN=");
    reveal_strlit("\"");
    let body = kept(existing);
    lemma_kept_holds_no_token(existing);
    let line = TOKEN_LINE@ + "\""@ + token + "\""@;
    let n = TOKEN_LINE@.len() as int;
    assert forall|i: int| 0 <= i < line.len() implies line[i] != '\n' && line[i] != '\r' by {
        if i < n {
            assert(line[i] == TOKEN_LINE@[i]);
        } else if i > n && i < n + 1 + token.len() {
            assert(line[i] == token[i - n - 1]);
            assert(token.contains(token[i - n - 1]));
        }
    }
    text::lemma_line_appended(body, line);
    let ls = text::lines(body);
    lemma_token_at_end(ls, line);
    assert(text::trim_start(line) == line);
    assert(line.last() == '"');
    assert(text::trim(line) == line);
    assert(TOKEN_LINE@.is_prefix_of(line));
    let v = line.skip(n);
    assert(v[0] == '"');
    assert(v.skip(1)[0] == token[0]);
    assert(trim_quotes_start(v.skip(1)) == v.skip(1));
    let w = v.skip(1);
    assert(w.last() == '"');
    assert(w.drop_last() =~= token);
    assert(trim_quotes_end(token) == token);
    assert(trim_quotes_end(w) == token);
}

/// What is kept of the file ends with a line feed, and keeps no token.
proof fn lemma_kept_holds_no_token(existing: Seq<char>)
    ensures
        kept(existing).len() == 0 || kept(existing).last() == '\n',
        token_in(text::lines(kept(existing))) is None,
{
    reveal_strlit("\n");
    assert("\n"@ =~= seq!['\n']);
    text::lemma_lines_hold_no_feed(existing);
    let ls = other_lines(text::lines(existing));
    lemma_other_lines(text::lines(existing));
    let body = text::join(ls, "\n"@);
    if body.len() > 0 {
        if body.last() == '\n' {
            let last = ls.last();
            if last.len() > 0 {
                assert(body.last() == last.last());
                assert(last.contains(last.last()));
            }
            assert(ls.len() > 1);
            lemma_ended_lines_hold_no_token(ls.drop_last());
            assert(body =~= text::join(ls.drop_last(), "\n"@).push('\n'));
        } else {
            lemma_ended_lines_hold_no_token(ls);
        }
    }
}

/// The other lines are lines, and none of them keeps a token.
proof fn lemma_other_lines(ls: Seq<Seq<char>>)
    requires
        forall|i: int| 0 <= i < ls.len() ==> !(#[trigger] ls[i]).contains('\n'),
    ensures
        forall|i: int|
            0 <= i < other_lines(ls).len() ==> !(#[trigger] other_lines(ls)[i]).contains('\n')
                && !is_token_line(other_lines(ls)[i]),
    decreases ls.len(),
{
    if ls.len() > 0 {
        let init = ls.drop_last();
        lemma_other_lines(init);
        let all = other_lines(ls);
        assert(!ls[ls.len() - 1].contains('\n'));
        assert forall|i: int| 0 <= i < all.len() implies !(#[trigger] all[i]).contains('\n')
            && !is_token_line(all[i]) by {
            if i < other_lines(init).len() {
                assert(all[i] == other_lines(init)[i]);
            }
        }
    }
}

/// Lines that keep no token keep none when each is ended by a line feed.
proof fn lemma_ended_lines_hold_no_token(ls: Seq<Seq<char>>)
    requires
        ls.len() > 0,
        forall|i: int|
            0 <= i < ls.len() ==> !(#[trigger] ls[i]).contains('\n') && !is_token_line(ls[i]),
    ensures
        token_in(text::lines(text::join(ls, "\n"@).push('\n'))) is None,
    decreases ls.len(),
{
    reveal_strlit("\n");
    assert("\n"@ =~= seq!['\n']);
    let last = ls.last();
    let before = if ls.len() == 1 {
        Seq::empty()
    } else {
        text::join(ls.drop_last(), "\n"@).push('\n')
    };
    if ls.len() > 1 {
        lemma_ended_lines_hold_no_token(ls.drop_last());
    }
    assert(text::join(ls, "\n"@).push('\n') =~= before + last.push('\n'));
    text::lemma_line_appended(before, last);
    lemma_token_at_end(text::lines(before), text::strip_cr(last));
    text::lemma_trim_cr(last);
    let one = seq![text::strip_cr(last)];
    assert(token_in(one.skip(1)) is None);
}

proof fn lemma_token_at_end(ls: Seq<Seq<char>>, line: Seq<char>)
    requires
        token_in(ls) is None,
    ensures
        token_in(ls.push(line)) == token_in(seq![line]),
    decreases ls.len(),
{
    if ls.len() == 0 {
        assert(ls.push(line) =~= seq![line]);
    } else {
        assert(ls.push(line).skip(1) =~= ls.skip(1).push(line));
        lemma_token_at_end(ls.skip(1), line);
    }
}

/// One conversation in the list.
pub open spec fn session_line(m: MetaModel) -> Seq<char> {
    text::left_aligned(m.id, 14) + " "@ + text::right_aligned(
        text::decimal(m.messages as nat),
        3,
    ) + " msg  "@ + m.title
}

/// One conversation in the list.
pub fn show_session(m: &SessionMeta) -> (r: String)
    ensures
        r@ == session_line(m@),
{
    let mut out = text::align_left(m.id.as_str(), 14);
    out.push_str(" ");
    let n = text::decimal_of(m.messages as u64);
    let a = text::align_right(n.as_str(), 3);
    out.push_str(a.as_str());
    out.push_str(" msg  ");
    out.push_str(m.title.as_str());
    out
}

proof fn lemma_others_are_filtered(ls: Seq<Seq<char>>)
    ensures
        other_lines(ls) == ls.filter(|l: Seq<char>| !is_token_line(l)),
    decreases ls.len(),
{
    reveal(Seq::filter);
    if ls.len() > 0 {
        lemma_others_are_filtered(ls.drop_last());
    }
}

proof fn lemma_joined_is_framed(ls: Seq<Seq<char>>)
    requires
        ls.len() > 0,
    ensures
        text::join(ls, "\n"@).push('\n') == text::framed(ls),
    decreases ls.len(),
{
    reveal_strlit("\n");
    assert("\n"@ =~= seq!['\n']);
    if ls.len() > 1 {
        let init = ls.drop_last();
        lemma_joined_is_framed(init);
        text::lemma_framed_push(init, ls.last());
        assert(init.push(ls.last()) =~= ls);
        assert(text::join(ls, "\n"@).push('\n') =~= text::join(init, "\n"@).push('\n')
            + ls.last() + seq!['\n']);
        assert(text::framed(ls) =~= text::framed(init) + ls.last() + seq!['\n']);
    } else {
        assert(text::framed(ls.skip(1)) =~= Seq::empty());
        assert(text::join(ls, "\n"@).push('\n') =~= text::framed(ls));
    }
}

/// To set the token leaves every other line of the file as it is, in order, and adds the
/// token behind them. (A blank line at the very end goes.)
pub proof fn law_other_lines_stay(existing: Seq<char>, token: Seq<char>)
    requires
        !existing.contains('\r'),
        !token.contains('\n'),
        !token.contains('\r'),
        text::lines(existing).filter(|l: Seq<char>| !is_token_line(l)).len() > 0 ==> text::lines(
            existing,
        ).filter(|l: Seq<char>| !is_token_line(l)).last().len() > 0,
    ensures
        text::lines(replaced(existing, token)) == text::lines(existing).filter(
            |l: Seq<char>| !is_token_line(l),
        ).push(TOKEN_LINE@ + "\""@ + token + "\""@),
{
    let all = text::lines(existing);
    let p = |l: Seq<char>| !is_token_line(l);
    let others = other_lines(all);
    lemma_others_are_filtered(all);
    let line = TOKEN_LINE@ + "\""@ + token + "\""@;
    reveal_strlit("export RUSTCLAW_TOKEN=");
    reveal_strlit("\"");
    reveal_strlit("\n");
    assert("\n"@ =~= seq!['\n']);
    text::lemma_lines_hold_no_feed(existing);
    text::lemma_lines_hold_no_return(existing);
    assert forall|i: int| 0 <= i < others.len() implies !(#[trigger] others[i]).contains('\n')
        && !others[i].contains('\r') by {
        assert(all.filter(p).contains(others[i]));
        all.lemma_filter_contains_rev(p, others[i]);
    }
    assert(!line.contains('\n') && !line.contains('\r')) by {
        assert forall|i: int| 0 <= i < line.len() implies line[i] != '\n' && line[i] != '\r' by {
            let n = TOKEN_LINE@.len() as int;
            if n + 1 <= i < n + 1 + token.len() {
                assert(line[i] == token[i - n - 1]);
                assert(token.contains(token[i - n - 1]));
            }
        }
    }
    let ls = others.push(line);
    text::law_framed_lines_read_back(ls);
    text::lemma_framed_push(others, line);
    if others.len() > 0 {
        lemma_joined_is_framed(others);
        let body = text::join(others, "\n"@);
        assert(body.len() > 0 && body.last() != '\n') by {
            let last = others.last();
            assert(others[others.len() - 1] == last);
            assert(body.last() == last.last());
            assert(last.contains(last.last()));
        }
        assert(replaced(existing, token) =~= text::framed(others) + line + seq!['\n']);
    } else {
        assert(text::framed(others) =~= Seq::empty());
        assert(replaced(existing, token) =~= text::framed(others) + line + seq!['\n']);
    }
}

/// The first line that sets the token is the one that counts.
pub proof fn law_first_token_counts(ls: Seq<Seq<char>>, i: int, value: Seq<char>)
    requires
        0 <= i < ls.len(),
        text::trim(ls[i]) == TOKEN_LINE@ + value,
        forall|j: int| 0 <= j < i ==> !TOKEN_LINE@.is_prefix_of(text::trim(#[trigger] ls[j])),
    ensures
        token_in(ls) == Some(unquoted(value)),
    decreases i,
{
    if i > 0 {
        let rest = ls.skip(1);
        assert forall|j: int| 0 <= j < i - 1 implies !TOKEN_LINE@.is_prefix_of(
            text::trim(#[trigger] rest[j]),
        ) by {
            assert(rest[j] == ls[j + 1]);
        }
        law_first_token_counts(rest, i - 1, value);
        assert(!is_token_line(ls[0]));
    } else {
        let line = TOKEN_LINE@ + value;
        assert(TOKEN_LINE@.is_prefix_of(line));
        assert(line.skip(TOKEN_LINE@.len() as int) =~= value);
    }
}

/// The quotes around a token go, and nothing else.
pub proof fn law_quotes_go(value: Seq<char>)
    requires
        value.len() > 0,
        value[0] != '"',
        value.last() != '"',
    ensures
        unquoted(seq!['"'] + value + seq!['"']) == value,
        unquoted(value) == value,
{
    let s = seq!['"'] + value + seq!['"'];
    let rest = value + seq!['"'];
    assert(s.skip(1) =~= rest);
    assert(rest[0] == value[0]);
    assert(trim_quotes_start(rest) == rest);
    assert(trim_quotes_start(s) == rest);
    assert(rest.drop_last() =~= value);
    assert(trim_quotes_end(value) == value);
    assert(trim_quotes_end(rest) == value);
}

/// A session is listed by its id, how many messages it holds, and its title.
pub proof fn law_session_is_told(m: MetaModel)
    ensures
        m.id.is_prefix_of(session_line(m)),
        text::contains_str(session_line(m), text::decimal(m.messages as nat) + " msg  "@ + m.title),
{
    let n = text::decimal(m.messages as nat);
    let l = text::left_aligned(m.id, 14);
    let r = text::right_aligned(n, 3);
    text::law_aligning_adds_only_spaces(m.id, 14);
    text::law_aligning_adds_only_spaces(n, 3);
    let line = session_line(m);
    assert(line.take(m.id.len() as int) =~= l.take(m.id.len() as int));
    let told = n + " msg  "@ + m.title;
    let k = r.len() - n.len();
    let none = Seq::<char>::empty();
    assert(r =~= r.take(k) + r.skip(k));
    assert(line =~= (l + " "@ + r.take(k)) + told + none);
    text::law_found_is_there(line, told);
}

} // verus!
