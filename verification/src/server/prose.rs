//! The prose of a Markdown text, told from its code.
//!
//! Tags in prose are made inert; blocks and spans of code are left as they are.
use crate::text;
use vstd::prelude::*;

verus! {

broadcast use vstd::std_specs::vec::axiom_spec_len;

/// A character of prose, made inert where it could be part of a tag or an entity.
pub open spec fn inert(c: char) -> Seq<char> {
    if c == '&' {
        "&amp;"@
    } else if c == '<' {
        "&lt;"@
    } else if c == '>' {
        "&gt;"@
    } else {
        seq![c]
    }
}

/// Prose with every character made inert.
pub open spec fn all_inert(s: Seq<char>) -> Seq<char>
    decreases s.len(),
{
    if s.len() == 0 {
        Seq::empty()
    } else {
        all_inert(s.drop_last()) + inert(s.last())
    }
}

/// How many backticks stand in a row from `i` on.
pub open spec fn ticks(s: Seq<char>, i: int) -> int
    decreases s.len() - i,
{
    if 0 <= i < s.len() && s[i] == '`' {
        1 + ticks(s, i + 1)
    } else {
        0
    }
}

/// What is left of the line from `i` on is blank.
pub open spec fn blank_from(s: Seq<char>, i: int) -> bool
    decreases s.len() - i,
{
    ||| i < 0 || i >= s.len() || s[i] == '\n'
    ||| (s[i] == ' ' || s[i] == '\t' || s[i] == '\r') && blank_from(s, i + 1)
}

/// What is left of the line from `i` on holds no backtick.
pub open spec fn no_tick_from(s: Seq<char>, i: int) -> bool
    decreases s.len() - i,
{
    ||| i < 0 || i >= s.len() || s[i] == '\n'
    ||| s[i] != '`' && no_tick_from(s, i + 1)
}

/// The first position from `i` on that is no blank.
pub open spec fn past_blanks(s: Seq<char>, i: int) -> int
    decreases s.len() - i,
{
    if 0 <= i < s.len() && (s[i] == ' ' || s[i] == '\t') {
        past_blanks(s, i + 1)
    } else {
        i
    }
}

/// The column that the blanks from `i` on reach, where they start in column `col`:
/// a tab goes to the next column that four divides.
pub open spec fn reach(s: Seq<char>, i: int, col: int) -> int
    decreases s.len() - i,
{
    if 0 <= i < s.len() && s[i] == ' ' {
        reach(s, i + 1, col + 1)
    } else if 0 <= i < s.len() && s[i] == '\t' {
        reach(s, i + 1, (col / 4 + 1) * 4)
    } else {
        col
    }
}

/// How many digits stand in a row from `i` on.
pub open spec fn digits(s: Seq<char>, i: int) -> int
    decreases s.len() - i,
{
    if 0 <= i < s.len() && '0' <= s[i] <= '9' {
        1 + digits(s, i + 1)
    } else {
        0
    }
}

/// The mark of a list item ends at `i`: a blank or the end of the line follows.
pub open spec fn mark_ends(s: Seq<char>, i: int) -> bool {
    i >= s.len() || s[i] == ' ' || s[i] == '\t' || s[i] == '\n' || s[i] == '\r'
}

/// How long the mark of a list item at `i` is: a dash, a star or a plus, or up to
/// nine digits with a dot or a bracket. Zero where there is none.
pub open spec fn item_mark(s: Seq<char>, i: int) -> int {
    let d = digits(s, i);
    if 0 <= i < s.len() && (s[i] == '-' || s[i] == '*' || s[i] == '+') && mark_ends(s, i + 1) {
        1
    } else if 1 <= d <= 9 && i + d < s.len() && (s[i + d] == '.' || s[i + d] == ')') && mark_ends(
        s,
        i + d + 1,
    ) {
        d + 1
    } else {
        0
    }
}

/// The list items that a line indented to column `k` still belongs to. An item is
/// told by the column that its text starts in.
pub open spec fn still_in(items: Seq<int>, k: int) -> Seq<int>
    decreases items.len(),
{
    if items.len() > 0 && items.last() > k {
        still_in(items.drop_last(), k)
    } else {
        items
    }
}

/// The column that the text of the innermost item starts in.
pub open spec fn innermost(items: Seq<int>) -> int {
    if items.len() > 0 {
        items.last()
    } else {
        0
    }
}

/// What a line starts with: how far it is indented past the items it belongs to, the
/// mark of a list item if there is one, and its text.
pub struct LineHead {
    /// The items that the line belongs to, its own mark not counted.
    pub outer: Seq<int>,
    pub mark: int,
    /// The column and the position of the text.
    pub column: int,
    pub text: int,
    /// How many blanks stand before the text, past the items or behind the mark.
    pub gap: int,
}

/// What the line at `i` starts with, below the items of the line before.
pub open spec fn line_head(s: Seq<char>, i: int, items: Seq<int>) -> LineHead {
    let k = reach(s, i, 0);
    let p = past_blanks(s, i);
    let outer = still_in(items, k);
    let gap = k - innermost(outer);
    let m = if gap <= 3 {
        item_mark(s, p)
    } else {
        0
    };
    if m > 0 {
        let column = reach(s, p + m, k + m);
        LineHead {
            outer,
            mark: m,
            column: if 1 <= column - k - m <= 4 {
                column
            } else {
                k + m + 1
            },
            text: past_blanks(s, p + m),
            gap: column - k - m - 1,
        }
    } else {
        LineHead { outer, mark: 0, column: k, text: p, gap }
    }
}

/// The items that the text of the line at `i` belongs to. A blank line leaves them.
pub open spec fn items_of_line(s: Seq<char>, i: int, items: Seq<int>) -> Seq<int> {
    let h = line_head(s, i, items);
    if blank_from(s, i) {
        items
    } else if h.mark > 0 {
        h.outer.push(h.column)
    } else {
        h.outer
    }
}

/// A line starts at `i`.
pub open spec fn line_starts(s: Seq<char>, i: int) -> bool {
    0 <= i < s.len() && (i == 0 || s[i - 1] == '\n')
}

/// A block of code opens with the line at `i`: behind at most three blanks, or behind
/// the mark of a list item, stand three backticks or more, and no other backtick.
pub open spec fn opens_block(s: Seq<char>, i: int, items: Seq<int>) -> bool {
    let h = line_head(s, i, items);
    &&& line_starts(s, i)
    &&& h.gap <= 3
    &&& ticks(s, h.text) >= 3
    &&& no_tick_from(s, h.text + ticks(s, h.text))
}

/// Where the line at `j` ends a block that `n` backticks opened and whose text starts
/// in column `w`, if it does: before the line where it is indented less, behind its
/// backticks where it has as many or more and nothing else.
pub open spec fn block_stop(s: Seq<char>, n: int, w: int, j: int) -> Option<int> {
    let k = reach(s, j, 0);
    let p = past_blanks(s, j);
    if !line_starts(s, j) || blank_from(s, j) {
        None
    } else if k < w {
        Some(j)
    } else if k <= w + 3 && ticks(s, p) >= n && blank_from(s, p + ticks(s, p)) {
        Some(p + ticks(s, p))
    } else {
        None
    }
}

/// Where such a block ends: with the first line from `j` on that ends it, or with the
/// text.
pub open spec fn block_end(s: Seq<char>, n: int, w: int, j: int) -> int
    decreases s.len() - j,
{
    if j < 0 || j >= s.len() {
        s.len() as int
    } else {
        match block_stop(s, n, w, j) {
            Some(e) => e,
            None => block_end(s, n, w, j + 1),
        }
    }
}

/// A paragraph ends with the line feed at `j`: a blank line, a block of code or a
/// list item follows.
pub open spec fn ends_paragraph(s: Seq<char>, j: int, items: Seq<int>) -> bool {
    &&& s[j] == '\n'
    &&& blank_from(s, j + 1) || opens_block(s, j + 1, items) || line_head(s, j + 1, items).mark > 0
}

/// The items in force at `k`, where they are `items` at `j`.
pub open spec fn items_at(s: Seq<char>, j: int, items: Seq<int>, k: int) -> Seq<int>
    decreases k - j,
{
    if k <= j {
        items
    } else {
        let before = items_at(s, j, items, k - 1);
        if s[k - 1] == '\n' {
            items_of_line(s, k, before)
        } else {
            before
        }
    }
}

/// A paragraph ends at `k`, where `items` are in force at `j`.
pub open spec fn breaks_at(s: Seq<char>, j: int, items: Seq<int>, k: int) -> bool {
    ends_paragraph(s, k, items_at(s, j, items, k))
}

/// The backticks at `c` close an inline span whose text starts at `j`, behind `n`
/// backticks: exactly as many stand there, in the same paragraph.
pub open spec fn closes_span(s: Seq<char>, n: int, j: int, items: Seq<int>, c: int) -> bool {
    &&& j <= c < s.len()
    &&& ticks(s, c) == n
    &&& s[c - 1] != '`'
    &&& forall|k: int| j <= k < c ==> !#[trigger] breaks_at(s, j, items, k)
}

/// Some backticks close a span whose text starts at `j`, behind `n` backticks.
pub open spec fn is_closed(s: Seq<char>, n: int, j: int, items: Seq<int>) -> bool {
    exists|c: int| closes_span(s, n, j, items, c)
}

/// The first backticks from `j` on that close such a span, if any do.
pub open spec fn span_end(s: Seq<char>, n: int, j: int, items: Seq<int>) -> Option<int>
    decreases s.len() - j,
{
    if j < 0 || j >= s.len() || ends_paragraph(s, j, items) {
        None
    } else if s[j] == '\n' {
        span_end(s, n, j + 1, items_of_line(s, j + 1, items))
    } else if s[j] != '`' {
        span_end(s, n, j + 1, items)
    } else if ticks(s, j) == n {
        Some(j)
    } else if 0 < ticks(s, j) <= s.len() - j {
        span_end(s, n, j + ticks(s, j), items)
    } else {
        None
    }
}

/// What a stretch of Markdown is.
pub enum PartKind {
    Block,
    Span,
    Prose,
}

/// A stretch of Markdown, with the list items in force before it.
pub struct Part {
    pub kind: PartKind,
    pub from: int,
    pub to: int,
    pub items: Seq<int>,
}

impl Part {
    /// The list items in force where the stretch starts.
    pub open spec fn items_here(self, s: Seq<char>) -> Seq<int> {
        if line_starts(s, self.from) {
            items_of_line(s, self.from, self.items)
        } else {
            self.items
        }
    }

    /// The list items in force before what follows.
    pub open spec fn items_behind(self, s: Seq<char>) -> Seq<int> {
        if self.kind is Span {
            items_at(s, self.from, self.items_here(s), self.to)
        } else {
            self.items_here(s)
        }
    }
}

/// The stretch that starts at `i`: a block of code, an inline span that is closed,
/// or prose. A backtick behind a backslash opens nothing.
pub open spec fn part_at(s: Seq<char>, i: int, items: Seq<int>) -> Part {
    let n = ticks(s, i);
    let prose = Part { kind: PartKind::Prose, from: i, to: i + 1, items };
    let here = prose.items_here(s);
    if opens_block(s, i, items) {
        let text = line_head(s, i, items).text;
        let m = ticks(s, text);
        Part {
            kind: PartKind::Block,
            to: block_end(s, m, innermost(here), text + m),
            ..prose
        }
    } else if s[i] == '`' {
        match span_end(s, n, i + n, here) {
            Some(c) => Part { kind: PartKind::Span, to: c + n, ..prose },
            None => Part { to: i + n, ..prose },
        }
    } else if s[i] == '\\' && i + 1 < s.len() && (s[i + 1] == '\\' || s[i + 1] == '`') {
        Part { to: i + 2, ..prose }
    } else {
        prose
    }
}

/// The stretches of `s` from `i` on.
pub open spec fn parts(s: Seq<char>, i: int, items: Seq<int>) -> Seq<Part>
    decreases s.len() - i,
{
    let p = part_at(s, i, items);
    if 0 <= i < p.to <= s.len() {
        seq![p] + parts(s, p.to, p.items_behind(s))
    } else {
        Seq::empty()
    }
}

/// The stretches of a text.
pub open spec fn parts_of(s: Seq<char>) -> Seq<Part> {
    parts(s, 0, Seq::empty())
}

/// A stretch as it is exported: code as it is, prose made inert.
pub open spec fn part_shown(s: Seq<char>, p: Part) -> Seq<char> {
    if p.kind is Prose {
        all_inert(s.subrange(p.from, p.to))
    } else {
        s.subrange(p.from, p.to)
    }
}

/// Stretches as they are exported, one behind the other.
pub open spec fn all_shown(s: Seq<char>, ps: Seq<Part>) -> Seq<char> {
    text::concat(Seq::new(ps.len(), |k: int| part_shown(s, ps[k])))
}

/// Markdown as it is exported, stretch by stretch.
pub open spec fn neutral(s: Seq<char>) -> Seq<char> {
    all_shown(s, parts_of(s))
}

/// A block that was opened by `n` backticks, and whose text starts in column `w`, runs
/// from `j` to `to`: to the first line that ends it, or to the end of the text.
pub open spec fn block_runs(s: Seq<char>, n: int, w: int, j: int, to: int) -> bool {
    ||| to == s.len() && forall|k: int| j <= k ==> #[trigger] block_stop(s, n, w, k) is None
    ||| exists|k: int|
        {
            &&& j <= k
            &&& #[trigger] block_stop(s, n, w, k) == Some(to)
            &&& forall|l: int| j <= l < k ==> #[trigger] block_stop(s, n, w, l) is None
        }
}

/// `p` is what its kind says: a block of code that is closed, is left by its list item
/// or runs to the end of the text; an inline span that is closed; or prose, which
/// opens neither.
pub open spec fn is_part(s: Seq<char>, p: Part) -> bool {
    let n = ticks(s, p.from);
    let here = p.items_here(s);
    &&& 0 <= p.from < p.to <= s.len()
    &&& match p.kind {
        PartKind::Block => {
            let text = line_head(s, p.from, p.items).text;
            &&& opens_block(s, p.from, p.items)
            &&& block_runs(s, ticks(s, text), innermost(here), text + ticks(s, text), p.to)
        },
        PartKind::Span => {
            &&& n > 0
            &&& closes_span(s, n, p.from + n, here, p.to - n)
        },
        PartKind::Prose => {
            &&& !opens_block(s, p.from, p.items)
            &&& n > 0 ==> !is_closed(s, n, p.from + n, here)
        },
    }
}

proof fn lemma_ticks(s: Seq<char>, i: int)
    requires
        0 <= i <= s.len(),
    ensures
        0 <= ticks(s, i) <= s.len() - i,
        forall|k: int| i <= k < i + ticks(s, i) ==> s[k] == '`',
        i + ticks(s, i) < s.len() ==> s[i + ticks(s, i)] != '`',
        i < s.len() && s[i] == '`' ==> ticks(s, i) > 0,
    decreases s.len() - i,
{
    if i < s.len() && s[i] == '`' {
        lemma_ticks(s, i + 1);
    }
}

proof fn lemma_past_blanks(s: Seq<char>, i: int)
    requires
        0 <= i <= s.len(),
    ensures
        i <= past_blanks(s, i) <= s.len(),
    decreases s.len() - i,
{
    if i < s.len() && (s[i] == ' ' || s[i] == '\t') {
        lemma_past_blanks(s, i + 1);
    }
}

proof fn lemma_item_mark(s: Seq<char>, i: int)
    requires
        0 <= i <= s.len(),
    ensures
        0 <= item_mark(s, i) <= s.len() - i,
{
    lemma_digits(s, i);
}

proof fn lemma_digits(s: Seq<char>, i: int)
    requires
        0 <= i <= s.len(),
    ensures
        0 <= digits(s, i) <= s.len() - i,
    decreases s.len() - i,
{
    if i < s.len() && '0' <= s[i] <= '9' {
        lemma_digits(s, i + 1);
    }
}

proof fn lemma_line_head(s: Seq<char>, i: int, items: Seq<int>)
    requires
        0 <= i <= s.len(),
    ensures
        i <= line_head(s, i, items).text <= s.len(),
        0 <= line_head(s, i, items).mark,
{
    lemma_past_blanks(s, i);
    let p = past_blanks(s, i);
    lemma_item_mark(s, p);
    let m = item_mark(s, p);
    lemma_past_blanks(s, p + m);
}

proof fn lemma_block_end(s: Seq<char>, n: int, w: int, j: int)
    requires
        0 <= j <= s.len(),
    ensures
        j <= block_end(s, n, w, j) <= s.len(),
        block_runs(s, n, w, j, block_end(s, n, w, j)),
    decreases s.len() - j,
{
    let to = block_end(s, n, w, j);
    if j >= s.len() {
        assert forall|k: int| j <= k implies #[trigger] block_stop(s, n, w, k) is None by {}
    } else {
        lemma_past_blanks(s, j);
        lemma_ticks(s, past_blanks(s, j));
        match block_stop(s, n, w, j) {
            Some(e) => {
                assert(block_stop(s, n, w, j) == Some(to));
            },
            None => {
                lemma_block_end(s, n, w, j + 1);
                if to == s.len() && (forall|k: int|
                    j + 1 <= k ==> #[trigger] block_stop(s, n, w, k) is None) {
                    assert forall|k: int| j <= k implies #[trigger] block_stop(
                        s,
                        n,
                        w,
                        k,
                    ) is None by {}
                } else {
                    let k = choose|k: int|
                        {
                            &&& j + 1 <= k
                            &&& #[trigger] block_stop(s, n, w, k) == Some(to)
                            &&& forall|l: int|
                                j + 1 <= l < k ==> #[trigger] block_stop(s, n, w, l) is None
                        };
                    assert forall|l: int| j <= l < k implies #[trigger] block_stop(
                        s,
                        n,
                        w,
                        l,
                    ) is None by {}
                    assert(block_stop(s, n, w, k) == Some(to));
                }
            },
        }
    }
}

proof fn lemma_items_after_first(s: Seq<char>, j: int, items: Seq<int>, k: int)
    requires
        j < k,
    ensures
        items_at(s, j, items, k) == items_at(
            s,
            j + 1,
            if s[j] == '\n' {
                items_of_line(s, j + 1, items)
            } else {
                items
            },
            k,
        ),
    decreases k - j,
{
    reveal_with_fuel(items_at, 2);
    if k > j + 1 {
        lemma_items_after_first(s, j, items, k - 1);
    }
}

proof fn lemma_items_over_ticks(s: Seq<char>, j: int, items: Seq<int>, m: int, k: int)
    requires
        0 <= m,
        j + m <= k,
        forall|l: int| j <= l < j + m ==> s[l] == '`',
    ensures
        items_at(s, j, items, k) == items_at(s, j + m, items, k),
    decreases m,
{
    if m > 0 {
        assert(s[j] == '`');
        lemma_items_after_first(s, j, items, k);
        lemma_items_over_ticks(s, j + 1, items, m - 1, k);
    }
}

proof fn lemma_span_end(s: Seq<char>, n: int, j: int, items: Seq<int>)
    requires
        0 < j <= s.len(),
        n > 0,
        j < s.len() && s[j] == '`' ==> s[j - 1] != '`',
    ensures
        match span_end(s, n, j, items) {
            Some(c) => {
                &&& closes_span(s, n, j, items, c)
                &&& forall|d: int| #[trigger] closes_span(s, n, j, items, d) ==> c <= d
            },
            None => forall|c: int| !#[trigger] closes_span(s, n, j, items, c),
        },
    decreases s.len() - j,
{
    if j >= s.len() {
    } else if ends_paragraph(s, j, items) {
        assert(breaks_at(s, j, items, j));
        assert forall|c: int| !#[trigger] closes_span(s, n, j, items, c) by {
            if closes_span(s, n, j, items, c) && c == j {
                lemma_ticks(s, c);
            }
        }
    } else if s[j] != '`' {
        let next = if s[j] == '\n' {
            items_of_line(s, j + 1, items)
        } else {
            items
        };
        lemma_span_end(s, n, j + 1, next);
        assert forall|c: int|
            closes_span(s, n, j, items, c) == #[trigger] closes_span(s, n, j + 1, next, c) by {
            assert(ticks(s, j) == 0);
            assert forall|k: int| j < k implies breaks_at(s, j, items, k) == #[trigger] breaks_at(
                s,
                j + 1,
                next,
                k,
            ) by {
                lemma_items_after_first(s, j, items, k);
            }
            if closes_span(s, n, j + 1, next, c) {
                assert forall|k: int| j <= k < c implies !#[trigger] breaks_at(s, j, items, k) by {
                    if k > j {
                        assert(!breaks_at(s, j + 1, next, k));
                    }
                }
            }
            if closes_span(s, n, j, items, c) {
                assert forall|k: int| j + 1 <= k < c implies !#[trigger] breaks_at(
                    s,
                    j + 1,
                    next,
                    k,
                ) by {
                    assert(!breaks_at(s, j, items, k));
                }
            }
        }
        assert forall|c: int| #[trigger] closes_span(s, n, j, items, c) implies closes_span(
            s,
            n,
            j + 1,
            next,
            c,
        ) by {}
    } else {
        lemma_ticks(s, j);
        let m = ticks(s, j);
        if m == n {
            assert(closes_span(s, n, j, items, j));
        } else {
            lemma_span_end(s, n, j + m, items);
            assert forall|c: int|
                closes_span(s, n, j, items, c) == #[trigger] closes_span(s, n, j + m, items, c) by {
                assert forall|k: int| j + m <= k implies breaks_at(
                    s,
                    j,
                    items,
                    k,
                ) == #[trigger] breaks_at(s, j + m, items, k) by {
                    lemma_items_over_ticks(s, j, items, m, k);
                }
                if closes_span(s, n, j + m, items, c) {
                    assert forall|k: int| j <= k < c implies !#[trigger] breaks_at(
                        s,
                        j,
                        items,
                        k,
                    ) by {
                        if k < j + m {
                            assert(s[k] == '`');
                        } else {
                            assert(!breaks_at(s, j + m, items, k));
                        }
                    }
                }
                if closes_span(s, n, j, items, c) {
                    if j < c < j + m {
                        assert(s[c - 1] == '`');
                    }
                    assert forall|k: int| j + m <= k < c implies !#[trigger] breaks_at(
                        s,
                        j + m,
                        items,
                        k,
                    ) by {
                        assert(!breaks_at(s, j, items, k));
                    }
                }
            }
            assert forall|c: int| #[trigger] closes_span(s, n, j, items, c) implies closes_span(
                s,
                n,
                j + m,
                items,
                c,
            ) by {}
        }
    }
}

proof fn lemma_part_at(s: Seq<char>, i: int, items: Seq<int>)
    requires
        0 <= i < s.len(),
    ensures
        is_part(s, part_at(s, i, items)),
        part_at(s, i, items).from == i,
        part_at(s, i, items).items == items,
{
    lemma_ticks(s, i);
    let n = ticks(s, i);
    let p = part_at(s, i, items);
    let here = p.items_here(s);
    if opens_block(s, i, items) {
        lemma_line_head(s, i, items);
        let text = line_head(s, i, items).text;
        lemma_ticks(s, text);
        lemma_block_end(s, ticks(s, text), innermost(here), text + ticks(s, text));
    } else if s[i] == '`' {
        lemma_span_end(s, n, i + n, here);
        if let Some(c) = span_end(s, n, i + n, here) {
            lemma_ticks(s, c);
            assert(closes_span(s, n, i + n, here, c + n - n));
        }
    }
}

proof fn lemma_all_inert(s: Seq<char>)
    ensures
        !all_inert(s).contains('<'),
        !all_inert(s).contains('>'),
    decreases s.len(),
{
    if s.len() > 0 {
        lemma_all_inert(s.drop_last());
        reveal_strlit("&amp;");
        reveal_strlit("&lt;");
        reveal_strlit("&gt;");
        let a = all_inert(s.drop_last());
        let b = inert(s.last());
        assert forall|k: int| 0 <= k < (a + b).len() implies (a + b)[k] != '<' && (a + b)[k]
            != '>' by {
            if k < a.len() {
                assert(a.contains(a[k]));
            }
        }
    }
}

/// The text of the stretches, one behind the other.
pub open spec fn parts_text(s: Seq<char>, ps: Seq<Part>) -> Seq<char> {
    text::concat(Seq::new(ps.len(), |k: int| s.subrange(ps[k].from, ps[k].to)))
}

proof fn lemma_parts(s: Seq<char>, i: int, items: Seq<int>)
    requires
        0 <= i <= s.len(),
    ensures
        forall|k: int|
            0 <= k < parts(s, i, items).len() ==> is_part(s, #[trigger] parts(s, i, items)[k]),
        parts_text(s, parts(s, i, items)) == s.skip(i),
    decreases s.len() - i,
{
    if i < s.len() {
        lemma_part_at(s, i, items);
        let p = part_at(s, i, items);
        let rest = parts(s, p.to, p.items_behind(s));
        lemma_parts(s, p.to, p.items_behind(s));
        let all = parts(s, i, items);
        assert(all == seq![p] + rest);
        assert forall|k: int| 0 <= k < all.len() implies is_part(s, #[trigger] all[k]) by {
            if k > 0 {
                assert(all[k] == rest[k - 1]);
            }
        }
        let texts = Seq::new(all.len(), |k: int| s.subrange(all[k].from, all[k].to));
        assert(texts.skip(1) =~= Seq::new(
            rest.len(),
            |k: int| s.subrange(rest[k].from, rest[k].to),
        ));
        text::lemma_concat_first(texts);
        assert(s.subrange(i, p.to) + s.skip(p.to) =~= s.skip(i));
    } else {
        assert(parts(s, i, items) =~= Seq::empty());
        assert(s.skip(i) =~= Seq::empty());
    }
}

/// Tags in prose become inert, and code stays as it is. The text is exported
/// stretch by stretch; each stretch is a block of code, an inline span that is
/// closed in its paragraph, or prose that opens neither; and outside of the blocks
/// and the spans no angle bracket is left.
pub proof fn law_prose_is_inert(s: Seq<char>)
    ensures
        parts_text(s, parts_of(s)) == s,
        neutral(s) == all_shown(s, parts_of(s)),
        forall|k: int|
            0 <= k < parts_of(s).len() ==> {
                let p = #[trigger] parts_of(s)[k];
                &&& is_part(s, p)
                &&& !(p.kind is Prose) ==> part_shown(s, p) == s.subrange(p.from, p.to)
                &&& p.kind is Prose ==> !part_shown(s, p).contains('<') && !part_shown(
                    s,
                    p,
                ).contains('>')
            },
{
    lemma_parts(s, 0, Seq::empty());
    assert(s.skip(0) =~= s);
    assert forall|k: int| 0 <= k < parts_of(s).len() implies {
        let p = #[trigger] parts_of(s)[k];
        &&& is_part(s, p)
        &&& p.kind is Prose ==> !part_shown(s, p).contains('<') && !part_shown(s, p).contains('>')
    } by {
        let p = parts_of(s)[k];
        lemma_all_inert(s.subrange(p.from, p.to));
    }
}

fn ticks_at(cs: &Vec<char>, i: usize) -> (r: usize)
    requires
        i <= cs@.len(),
    ensures
        r == ticks(cs@, i as int),
        i + r <= cs@.len(),
{
    let mut k: usize = i;
    proof {
        lemma_ticks(cs@, i as int);
    }
    while k < cs.len() && cs[k] == '`'
        invariant
            i <= k <= cs@.len(),
            ticks(cs@, i as int) == k - i + ticks(cs@, k as int),
        decreases cs@.len() - k,
    {
        k += 1;
    }
    k - i
}

fn is_blank_from(cs: &Vec<char>, i: usize) -> (r: bool)
    requires
        i <= cs@.len(),
    ensures
        r == blank_from(cs@, i as int),
{
    let mut k: usize = i;
    while k < cs.len() && cs[k] != '\n'
        invariant
            i <= k <= cs@.len(),
            blank_from(cs@, i as int) == blank_from(cs@, k as int),
        decreases cs@.len() - k,
    {
        if cs[k] != ' ' && cs[k] != '\t' && cs[k] != '\r' {
            return false;
        }
        k += 1;
    }
    true
}

fn has_no_tick_from(cs: &Vec<char>, i: usize) -> (r: bool)
    requires
        i <= cs@.len(),
    ensures
        r == no_tick_from(cs@, i as int),
{
    let mut k: usize = i;
    while k < cs.len() && cs[k] != '\n'
        invariant
            i <= k <= cs@.len(),
            no_tick_from(cs@, i as int) == no_tick_from(cs@, k as int),
        decreases cs@.len() - k,
    {
        if cs[k] == '`' {
            return false;
        }
        k += 1;
    }
    true
}

/// Where the blanks from `i` on end, and the column that they reach from `col`.
fn skip_blanks(cs: &Vec<char>, i: usize, col: u128) -> (r: (usize, u128))
    requires
        i <= cs@.len(),
        col <= 0x1_0000_0000_0000_0000_0000,
    ensures
        r.0 == past_blanks(cs@, i as int),
        r.1 == reach(cs@, i as int, col as int),
        i <= r.0 <= cs@.len(),
        r.1 <= col + 4 * (r.0 - i),
{
    let mut k: usize = i;
    let mut at: u128 = col;
    while k < cs.len() && (cs[k] == ' ' || cs[k] == '\t')
        invariant
            i <= k <= cs@.len(),
            col <= 0x1_0000_0000_0000_0000_0000,
            at <= col + 4 * (k - i),
            past_blanks(cs@, i as int) == past_blanks(cs@, k as int),
            reach(cs@, i as int, col as int) == reach(cs@, k as int, at as int),
        decreases cs@.len() - k,
    {
        if cs[k] == ' ' {
            at = at + 1;
        } else {
            at = (at / 4 + 1) * 4;
        }
        k += 1;
    }
    (k, at)
}

fn does_mark_end(cs: &Vec<char>, i: usize) -> (r: bool)
    ensures
        r == mark_ends(cs@, i as int),
{
    i >= cs.len() || cs[i] == ' ' || cs[i] == '\t' || cs[i] == '\n' || cs[i] == '\r'
}

/// How long the mark of a list item at `i` is.
fn item_mark_at(cs: &Vec<char>, i: usize) -> (r: usize)
    requires
        i <= cs@.len(),
    ensures
        r == item_mark(cs@, i as int),
        i + r <= cs@.len(),
{
    if i < cs.len() && (cs[i] == '-' || cs[i] == '*' || cs[i] == '+') && does_mark_end(cs, i + 1) {
        return 1;
    }
    let mut k: usize = i;
    while k < cs.len() && '0' <= cs[k] && cs[k] <= '9'
        invariant
            i <= k <= cs@.len(),
            digits(cs@, i as int) == k - i + digits(cs@, k as int),
        decreases cs@.len() - k,
    {
        k += 1;
    }
    let d: usize = k - i;
    if 1 <= d && d <= 9 && k < cs.len() && (cs[k] == '.' || cs[k] == ')') && does_mark_end(
        cs,
        k + 1,
    ) {
        d + 1
    } else {
        0
    }
}

spec fn columns_of(items: Seq<u128>) -> Seq<int> {
    Seq::new(items.len(), |k: int| items[k] as int)
}

/// What a line starts with: how many of the items it belongs to, the length of its
/// mark, the column and the position of its text, and whether that is indented by
/// three blanks at most.
struct Head {
    outer: usize,
    mark: usize,
    column: u128,
    text: usize,
    is_near: bool,
}

fn head_of_line(cs: &Vec<char>, i: usize, items: &Vec<u128>) -> (r: Head)
    requires
        i <= cs@.len(),
    ensures
        ({
            let h = line_head(cs@, i as int, columns_of(items@));
            &&& r.outer <= items@.len()
            &&& columns_of(items@).take(r.outer as int) == h.outer
            &&& r.mark == h.mark
            &&& r.column == h.column
            &&& r.text == h.text
            &&& r.is_near == (h.gap <= 3)
            &&& i <= r.text <= cs@.len()
        }),
{
    let ghost all = columns_of(items@);
    let room: usize = cs.len();
    let (p, k) = skip_blanks(cs, i, 0);
    let mut outer: usize = items.len();
    assert(all.take(outer as int) =~= all);
    while outer > 0 && items[outer - 1] > k
        invariant
            outer <= items@.len(),
            all == columns_of(items@),
            still_in(all, k as int) == still_in(all.take(outer as int), k as int),
        decreases outer,
    {
        assert(all.take(outer as int).last() == items@[outer - 1] as int);
        assert(all.take(outer as int).drop_last() =~= all.take(outer - 1));
        outer -= 1;
    }
    if outer > 0 {
        assert(all.take(outer as int).last() == items@[outer - 1] as int);
    }
    assert(still_in(all, k as int) == all.take(outer as int));
    let base: u128 = if outer > 0 {
        items[outer - 1]
    } else {
        0
    };
    assert(base == innermost(all.take(outer as int)));
    let gap: u128 = k - base;
    let mark: usize = if gap <= 3 {
        item_mark_at(cs, p)
    } else {
        0
    };
    if mark > 0 {
        assert(p + mark <= room);
        let (text, reached) = skip_blanks(cs, p + mark, k + mark as u128);
        let behind: u128 = k + mark as u128;
        proof {
            lemma_reach(cs@, p + mark, behind as int);
        }
        let blanks: u128 = reached - behind;
        let column: u128 = if 1 <= blanks && blanks <= 4 {
            reached
        } else {
            behind + 1
        };
        Head { outer, mark, column, text, is_near: blanks <= 4 }
    } else {
        Head { outer, mark: 0, column: k, text: p, is_near: gap <= 3 }
    }
}

proof fn lemma_reach(s: Seq<char>, i: int, col: int)
    requires
        0 <= i <= s.len(),
        col >= 0,
    ensures
        reach(s, i, col) >= col,
    decreases s.len() - i,
{
    if i < s.len() && s[i] == ' ' {
        lemma_reach(s, i + 1, col + 1);
    } else if i < s.len() && s[i] == '\t' {
        lemma_reach(s, i + 1, (col / 4 + 1) * 4);
    }
}

/// Takes in the line at `i`.
fn enter_line(cs: &Vec<char>, i: usize, items: &mut Vec<u128>)
    requires
        i <= cs@.len(),
    ensures
        columns_of(final(items)@) == items_of_line(cs@, i as int, columns_of(old(items)@)),
{
    if is_blank_from(cs, i) {
        return ;
    }
    let h = head_of_line(cs, i, items);
    let ghost all = columns_of(items@);
    items.truncate(h.outer);
    assert(columns_of(items@) =~= all.take(h.outer as int));
    if h.mark > 0 {
        let ghost before = columns_of(items@);
        items.push(h.column);
        assert(columns_of(items@) =~= before.push(h.column as int));
    }
}

fn is_line_start(cs: &Vec<char>, i: usize) -> (r: bool)
    requires
        i <= cs@.len(),
    ensures
        r == line_starts(cs@, i as int),
{
    i < cs.len() && (i == 0 || cs[i - 1] == '\n')
}

/// The text of the line at `i` where it opens a block of code.
fn block_opened(cs: &Vec<char>, i: usize, items: &Vec<u128>) -> (r: Option<usize>)
    requires
        i <= cs@.len(),
    ensures
        match r {
            Some(t) => {
                &&& opens_block(cs@, i as int, columns_of(items@))
                &&& t == line_head(cs@, i as int, columns_of(items@)).text
                &&& t <= cs@.len()
            },
            None => !opens_block(cs@, i as int, columns_of(items@)),
        },
{
    if !is_line_start(cs, i) {
        return None;
    }
    let h = head_of_line(cs, i, items);
    if !h.is_near {
        return None;
    }
    let room: usize = cs.len();
    let n = ticks_at(cs, h.text);
    assert(h.text + n <= room);
    if n >= 3 && has_no_tick_from(cs, h.text + n) {
        Some(h.text)
    } else {
        None
    }
}

/// Where a block that was opened by `n` backticks ends.
fn find_block_end(cs: &Vec<char>, n: usize, w: u128, from: usize) -> (r: usize)
    requires
        from <= cs@.len(),
    ensures
        r == block_end(cs@, n as int, w as int, from as int),
        from <= r <= cs@.len(),
{
    proof {
        lemma_block_end(cs@, n as int, w as int, from as int);
    }
    let mut j: usize = from;
    while j < cs.len()
        invariant
            from <= j <= cs@.len(),
            block_end(cs@, n as int, w as int, from as int) == block_end(
                cs@,
                n as int,
                w as int,
                j as int,
            ),
        decreases cs@.len() - j,
    {
        if is_line_start(cs, j) && !is_blank_from(cs, j) {
            let (p, k) = skip_blanks(cs, j, 0);
            if k < w {
                return j;
            }
            let m = ticks_at(cs, p);
            if k - w <= 3 && m >= n && is_blank_from(cs, p + m) {
                return p + m;
            }
        }
        j += 1;
    }
    j
}

/// The backticks that close a span opened by `n`, if any do, with the items in force
/// there.
fn find_span_end(cs: &Vec<char>, n: usize, from: usize, items: &Vec<u128>) -> (r: Option<
    (usize, Vec<u128>),
>)
    requires
        0 < from <= cs@.len(),
    ensures
        match r {
            Some((c, now)) => {
                &&& span_end(cs@, n as int, from as int, columns_of(items@)) == Some(c as int)
                &&& columns_of(now@) == items_at(
                    cs@,
                    from as int,
                    columns_of(items@),
                    c as int,
                )
            },
            None => span_end(cs@, n as int, from as int, columns_of(items@)) is None,
        },
{
    let ghost start = columns_of(items@);
    let mut now: Vec<u128> = items.clone();
    assert(now@ =~= items@);
    let mut j: usize = from;
    while j < cs.len()
        invariant
            0 < from <= j <= cs@.len(),
            start == columns_of(items@),
            span_end(cs@, n as int, from as int, start) == span_end(
                cs@,
                n as int,
                j as int,
                columns_of(now@),
            ),
            columns_of(now@) == items_at(cs@, from as int, start, j as int),
        decreases cs@.len() - j,
    {
        if cs[j] == '`' {
            proof {
                lemma_ticks(cs@, j as int);
            }
            let m = ticks_at(cs, j);
            if m == n {
                return Some((j, now));
            }
            proof {
                lemma_items_kept_over_ticks(cs@, from as int, start, j as int, m as int);
            }
            j += m;
        } else {
            if cs[j] == '\n' {
                if is_blank_from(cs, j + 1) || block_opened(cs, j + 1, &now).is_some()
                    || head_of_line(cs, j + 1, &now).mark > 0 {
                    return None;
                }
                enter_line(cs, j + 1, &mut now);
            }
            j += 1;
        }
    }
    None
}

proof fn lemma_items_kept_over_ticks(s: Seq<char>, j: int, items: Seq<int>, k: int, m: int)
    requires
        j <= k,
        0 <= m,
        forall|l: int| k <= l < k + m ==> s[l] == '`',
    ensures
        items_at(s, j, items, k + m) == items_at(s, j, items, k),
    decreases m,
{
    if m > 0 {
        lemma_items_kept_over_ticks(s, j, items, k, m - 1);
        assert(s[k + m - 1] == '`');
    }
}

/// Adds a stretch of code to `out`.
fn push_code(out: &mut String, cs: &Vec<char>, from: usize, to: usize)
    requires
        from <= to <= cs@.len(),
    ensures
        final(out)@ == old(out)@ + cs@.subrange(from as int, to as int),
{
    let ghost before = out@;
    let mut k: usize = from;
    assert(before + cs@.subrange(from as int, from as int) =~= before);
    while k < to
        invariant
            from <= k <= to <= cs@.len(),
            out@ == before + cs@.subrange(from as int, k as int),
        decreases to - k,
    {
        out.push(cs[k]);
        assert(out@ =~= before + cs@.subrange(from as int, k + 1));
        k += 1;
    }
}

/// Adds a stretch of prose to `out`.
fn push_prose(out: &mut String, cs: &Vec<char>, from: usize, to: usize)
    requires
        from <= to <= cs@.len(),
    ensures
        final(out)@ == old(out)@ + all_inert(cs@.subrange(from as int, to as int)),
{
    let ghost before = out@;
    let mut k: usize = from;
    assert(before + all_inert(cs@.subrange(from as int, from as int)) =~= before);
    while k < to
        invariant
            from <= k <= to <= cs@.len(),
            out@ == before + all_inert(cs@.subrange(from as int, k as int)),
        decreases to - k,
    {
        let ghost so_far = out@;
        let c = cs[k];
        if c == '&' {
            out.push_str("&amp;");
        } else if c == '<' {
            out.push_str("&lt;");
        } else if c == '>' {
            out.push_str("&gt;");
        } else {
            out.push(c);
        }
        assert(out@ =~= so_far + inert(c));
        assert(cs@.subrange(from as int, k + 1).drop_last() =~= cs@.subrange(
            from as int,
            k as int,
        ));
        assert(out@ =~= before + all_inert(cs@.subrange(from as int, k + 1)));
        k += 1;
    }
}

proof fn lemma_shown_from(s: Seq<char>, i: int, items: Seq<int>)
    requires
        0 <= i <= s.len(),
    ensures
        ({
            let p = part_at(s, i, items);
            let all = all_shown(s, parts(s, i, items));
            &&& i < s.len() ==> all == part_shown(s, p) + all_shown(
                s,
                parts(s, p.to, p.items_behind(s)),
            )
            &&& i == s.len() ==> all == Seq::<char>::empty()
        }),
{
    if i < s.len() {
        lemma_part_at(s, i, items);
        let p = part_at(s, i, items);
        let rest = parts(s, p.to, p.items_behind(s));
        let all = parts(s, i, items);
        assert(all == seq![p] + rest);
        let texts = Seq::new(all.len(), |k: int| part_shown(s, all[k]));
        assert(texts.skip(1) =~= Seq::new(rest.len(), |k: int| part_shown(s, rest[k])));
        text::lemma_concat_first(texts);
    } else {
        assert(parts(s, i, items) =~= Seq::empty());
    }
}

/// Makes tags in the prose of a Markdown text inert, and leaves code, where angle
/// brackets are common, as it is.
pub fn neutralize_prose_html(text: &str) -> (r: String)
    ensures
        r@ == neutral(text@),
{
    let cs = text::chars_of(text);
    let mut out = String::new();
    let mut items: Vec<u128> = Vec::new();
    let mut i: usize = 0;
    assert(columns_of(items@) =~= Seq::empty());
    assert(out@ + neutral(text@) =~= neutral(text@));
    while i < cs.len()
        invariant
            i <= cs@.len(),
            cs@ == text@,
            neutral(text@) == out@ + all_shown(text@, parts(text@, i as int, columns_of(items@))),
        decreases cs@.len() - i,
    {
        let ghost before = out@;
        let ghost s = text@;
        let ghost given = columns_of(items@);
        let ghost p = part_at(s, i as int, given);
        proof {
            lemma_part_at(s, i as int, given);
            lemma_shown_from(s, i as int, given);
            lemma_ticks(s, i as int);
        }
        let n = ticks_at(&cs, i);
        let opened = block_opened(&cs, i, &items);
        if is_line_start(&cs, i) {
            enter_line(&cs, i, &mut items);
        }
        let ghost here = columns_of(items@);
        assert(here == p.items_here(s));
        let to: usize;
        if let Some(t) = opened {
            let m = ticks_at(&cs, t);
            let w: u128 = if items.len() > 0 {
                items[items.len() - 1]
            } else {
                0
            };
            assert(w == innermost(here));
            to = find_block_end(&cs, m, w, t + m);
            push_code(&mut out, &cs, i, to);
        } else if cs[i] == '`' {
            match find_span_end(&cs, n, i + n, &items) {
                Some((c, now)) => {
                    proof {
                        lemma_ticks(s, c as int);
                        lemma_items_over_ticks(s, i as int, here, n as int, c + n);
                        lemma_items_kept_over_ticks(s, i + n, here, c as int, n as int);
                    }
                    to = c + n;
                    items = now;
                    push_code(&mut out, &cs, i, to);
                },
                None => {
                    to = i + n;
                    push_prose(&mut out, &cs, i, to);
                },
            }
        } else if cs[i] == '\\' && cs.len() - i > 1 && (cs[i + 1] == '\\' || cs[i + 1] == '`') {
            to = i + 2;
            push_prose(&mut out, &cs, i, to);
        } else {
            to = i + 1;
            push_prose(&mut out, &cs, i, to);
        }
        assert(to == p.to);
        assert(columns_of(items@) == p.items_behind(s));
        let ghost rest = all_shown(s, parts(s, p.to, p.items_behind(s)));
        assert(before + (part_shown(s, p) + rest) =~= out@ + rest);
        i = to;
    }
    proof {
        lemma_shown_from(text@, i as int, columns_of(items@));
        assert(out@ + Seq::<char>::empty() =~= out@);
    }
    out
}

proof fn lemma_all_inert_by_character(s: Seq<char>)
    ensures
        all_inert(s) == s.flat_map(
            |c: char|
                if c == '&' {
                    "&amp;"@
                } else if c == '<' {
                    "&lt;"@
                } else if c == '>' {
                    "&gt;"@
                } else {
                    seq![c]
                },
        ),
    decreases s.len(),
{
    let f = |c: char|
        if c == '&' {
            "&amp;"@
        } else if c == '<' {
            "&lt;"@
        } else if c == '>' {
            "&gt;"@
        } else {
            seq![c]
        };
    if s.len() > 0 {
        lemma_all_inert_by_character(s.drop_last());
        text::lemma_flat_map_last(s, f);
    } else {
        assert(s.map_values(f) =~= Seq::empty());
    }
}

/// A part of prose is kept, but for the three characters that mean something in a page,
/// each of which is escaped by itself; a part of code is kept as it is.
pub proof fn law_prose_is_escaped_by_character(s: Seq<char>, p: Part)
    ensures
        p.kind is Prose ==> part_shown(s, p) == s.subrange(p.from, p.to).flat_map(
            |c: char|
                if c == '&' {
                    "&amp;"@
                } else if c == '<' {
                    "&lt;"@
                } else if c == '>' {
                    "&gt;"@
                } else {
                    seq![c]
                },
        ),
        !(p.kind is Prose) ==> part_shown(s, p) == s.subrange(p.from, p.to),
{
    lemma_all_inert_by_character(s.subrange(p.from, p.to));
}

proof fn lemma_all_inert_add(a: Seq<char>, b: Seq<char>)
    ensures
        all_inert(a + b) == all_inert(a) + all_inert(b),
    decreases b.len(),
{
    if b.len() > 0 {
        lemma_all_inert_add(a, b.drop_last());
        assert((a + b).drop_last() =~= a + b.drop_last());
        assert((a + b).last() == b.last());
        assert(all_inert(a + b) =~= all_inert(a) + all_inert(b));
    } else {
        assert(a + b =~= a);
        assert(all_inert(a) + all_inert(b) =~= all_inert(a));
    }
}

proof fn lemma_all_prose(s: Seq<char>, ps: Seq<Part>)
    requires
        forall|k: int| 0 <= k < ps.len() ==> (#[trigger] ps[k]).kind is Prose,
    ensures
        all_shown(s, ps) == all_inert(parts_text(s, ps)),
    decreases ps.len(),
{
    let shown = Seq::new(ps.len(), |k: int| part_shown(s, ps[k]));
    let texts = Seq::new(ps.len(), |k: int| s.subrange(ps[k].from, ps[k].to));
    if ps.len() > 0 {
        let init = ps.drop_last();
        lemma_all_prose(s, init);
        let p = ps.last();
        assert(ps[ps.len() - 1] == p);
        assert(shown.drop_last() =~= Seq::new(init.len(), |k: int| part_shown(s, init[k])));
        assert(texts.drop_last() =~= Seq::new(
            init.len(),
            |k: int| s.subrange(init[k].from, init[k].to),
        ));
        text::lemma_concat_append(shown.drop_last(), seq![shown.last()]);
        text::lemma_concat_append(texts.drop_last(), seq![texts.last()]);
        text::lemma_concat_one(shown.last());
        text::lemma_concat_one(texts.last());
        assert(shown =~= shown.drop_last() + seq![shown.last()]);
        assert(texts =~= texts.drop_last() + seq![texts.last()]);
        lemma_all_inert_add(text::concat(texts.drop_last()), texts.last());
    } else {
        assert(shown =~= Seq::empty());
        assert(texts =~= Seq::empty());
    }
}

/// A text without backticks is prose from beginning to end: nothing of it is left out, and
/// each of the three characters that mean something in a page is escaped.
pub proof fn law_text_without_code_is_prose(s: Seq<char>)
    requires
        !s.contains('`'),
    ensures
        neutral(s) == s.flat_map(
            |c: char|
                if c == '&' {
                    "&amp;"@
                } else if c == '<' {
                    "&lt;"@
                } else if c == '>' {
                    "&gt;"@
                } else {
                    seq![c]
                },
        ),
{
    let ps = parts_of(s);
    law_prose_is_inert(s);
    assert forall|i: int| #[trigger] ticks(s, i) == 0 by {
        if 0 <= i < s.len() && s[i] == '`' {
            assert(s.contains(s[i]));
        }
    }
    assert forall|k: int| 0 <= k < ps.len() implies (#[trigger] ps[k]).kind is Prose by {
        let p = ps[k];
        assert(is_part(s, p));
        assert(ticks(s, p.from) == 0);
        assert(ticks(s, line_head(s, p.from, p.items).text) == 0);
    }
    lemma_all_prose(s, ps);
    lemma_all_inert_by_character(s);
}

proof fn lemma_one_part(s: Seq<char>)
    requires
        s.len() > 0,
        part_at(s, 0, Seq::empty()).to == s.len(),
        !(part_at(s, 0, Seq::empty()).kind is Prose),
    ensures
        neutral(s) == s,
{
    let p = part_at(s, 0, Seq::empty());
    reveal_with_fuel(parts, 2);
    let rest = parts(s, p.to, p.items_behind(s));
    lemma_no_part_behind(s, p.items_behind(s));
    assert(parts_of(s) =~= seq![p]);
    let shown = Seq::new(1, |k: int| part_shown(s, parts_of(s)[k]));
    assert(shown =~= seq![s.subrange(0, s.len() as int)]);
    assert(s.subrange(0, s.len() as int) =~= s);
    text::lemma_concat_one(s);
}

proof fn lemma_no_part_behind(s: Seq<char>, items: Seq<int>)
    ensures
        parts(s, s.len() as int, items) == Seq::<Part>::empty(),
{
}

/// Code in a fence is left as it is.
pub proof fn law_fenced_code_stays(code: Seq<char>)
    requires
        !code.contains('`'),
    ensures
        neutral(seq!['`', '`', '`', '\n'] + code + seq!['\n', '`', '`', '`']) == seq![
            '`',
            '`',
            '`',
            '\n',
        ] + code + seq!['\n', '`', '`', '`'],
{
    let s = seq!['`', '`', '`', '\n'] + code + seq!['\n', '`', '`', '`'];
    let n = code.len() as int;
    assert(s[0] == '`' && s[1] == '`' && s[2] == '`' && s[3] == '\n');
    reveal_with_fuel(ticks, 4);
    assert(ticks(s, 0) == 3);
    assert(digits(s, 0) == 0);
    assert(item_mark(s, 0) == 0);
    let h = line_head(s, 0, Seq::empty());
    assert(h.text == 0 && h.gap == 0 && h.mark == 0);
    assert(opens_block(s, 0, Seq::empty()));
    assert(!blank_from(s, 0));
    lemma_fence_closes(s, n, 3);
    lemma_one_part(s);
}

proof fn lemma_fence_closes(s: Seq<char>, n: int, j: int)
    requires
        0 <= n,
        s.len() == n + 8,
        s[n + 4] == '\n',
        s[n + 5] == '`',
        s[n + 6] == '`',
        s[n + 7] == '`',
        forall|k: int| 3 <= k < n + 5 ==> #[trigger] s[k] != '`',
        3 <= j <= n + 5,
    ensures
        block_end(s, 3, 0, j) == s.len(),
    decreases n + 5 - j,
{
    let p = past_blanks(s, j);
    lemma_reach(s, j, 0);
    if j == n + 5 {
        reveal_with_fuel(ticks, 4);
        assert(ticks(s, j) == 3);
        assert(reach(s, j, 0) == 0);
        assert(line_starts(s, j));
        assert(!blank_from(s, j));
        assert(blank_from(s, j + 3));
        assert(block_stop(s, 3, 0, j) == Some(j + 3));
    } else {
        lemma_fence_closes(s, n, j + 1);
        lemma_blanks_stay_on_the_line(s, j, n + 4);
        assert(ticks(s, p) == 0);
        assert(block_stop(s, 3, 0, j) is None);
    }
}

proof fn lemma_blanks_stay_on_the_line(s: Seq<char>, j: int, e: int)
    requires
        0 <= j <= e < s.len(),
        s[e] == '\n',
    ensures
        j <= past_blanks(s, j) <= e,
    decreases e - j,
{
    if j < e {
        if s[j] == ' ' || s[j] == '\t' {
            lemma_blanks_stay_on_the_line(s, j + 1, e);
        }
    }
}

/// Code in a span on one line is left as it is.
pub proof fn law_code_span_stays(code: Seq<char>)
    requires
        code.len() > 0,
        !code.contains('`'),
        !code.contains('\n'),
    ensures
        neutral(seq!['`'] + code + seq!['`']) == seq!['`'] + code + seq!['`'],
{
    let s = seq!['`'] + code + seq!['`'];
    assert(s[0] == '`');
    assert(s[1] == code[0]);
    assert(code.contains(code[0]));
    reveal_with_fuel(ticks, 2);
    assert(ticks(s, 0) == 1);
    assert(digits(s, 0) == 0);
    assert(item_mark(s, 0) == 0);
    let h = line_head(s, 0, Seq::empty());
    assert(h.text == 0);
    assert(!opens_block(s, 0, Seq::empty()));
    assert forall|k: int| 1 <= k < s.len() - 1 implies #[trigger] s[k] != '`' && s[k] != '\n' by {
        assert(s[k] == code[k - 1]);
        assert(code.contains(code[k - 1]));
    }
    let here = items_of_line(s, 0, Seq::empty());
    lemma_span_closes(s, 1, here);
    lemma_one_part(s);
}

proof fn lemma_span_closes(s: Seq<char>, j: int, items: Seq<int>)
    requires
        1 <= j < s.len(),
        s.last() == '`',
        forall|k: int| 1 <= k < s.len() - 1 ==> #[trigger] s[k] != '`' && s[k] != '\n',
    ensures
        span_end(s, 1, j, items) == Some(s.len() - 1),
    decreases s.len() - j,
{
    reveal_with_fuel(ticks, 2);
    if j < s.len() - 1 {
        lemma_span_closes(s, j + 1, items);
    }
}

/// A single backtick is no code: nothing closes it, so the text around it is prose and is
/// escaped.
pub proof fn law_single_tick_is_prose(a: Seq<char>, b: Seq<char>)
    requires
        !a.contains('`'),
        !b.contains('`'),
    ensures
        neutral(a + seq!['`'] + b) == (a + seq!['`'] + b).flat_map(
            |c: char|
                if c == '&' {
                    "&amp;"@
                } else if c == '<' {
                    "&lt;"@
                } else if c == '>' {
                    "&gt;"@
                } else {
                    seq![c]
                },
        ),
{
    let s = a + seq!['`'] + b;
    let t = a.len() as int;
    let ps = parts_of(s);
    law_prose_is_inert(s);
    assert forall|i: int| 0 <= i < s.len() && i != t implies s[i] != '`' by {
        if i < t {
            assert(a.contains(a[i]));
        } else {
            assert(b.contains(b[i - t - 1]));
        }
    }
    reveal_with_fuel(ticks, 2);
    assert forall|i: int| #[trigger] ticks(s, i) == (if i == t {
        1int
    } else {
        0
    }) by {
        if i != t && 0 <= i < s.len() {
            assert(s[i] != '`');
        }
        if i == t && t + 1 < s.len() {
            assert(s[t + 1] != '`');
        }
    }
    assert forall|k: int| 0 <= k < ps.len() implies (#[trigger] ps[k]).kind is Prose by {
        let p = ps[k];
        assert(is_part(s, p));
        assert(ticks(s, line_head(s, p.from, p.items).text) < 3);
        if p.kind is Span {
            assert(ticks(s, p.from) == 1);
            assert(p.from == t);
            assert(ticks(s, p.to - 1) == 0);
        }
    }
    lemma_all_prose(s, ps);
    lemma_all_inert_by_character(s);
}

proof fn lemma_spaces_reach(s: Seq<char>, i: int, k: int, col: int)
    requires
        0 <= i,
        0 <= k,
        i + k <= s.len(),
        forall|j: int| i <= j < i + k ==> #[trigger] s[j] == ' ',
    ensures
        reach(s, i, col) == reach(s, i + k, col + k),
        past_blanks(s, i) == past_blanks(s, i + k),
    decreases k,
{
    if k > 0 {
        assert(s[i] == ' ');
        lemma_spaces_reach(s, i + 1, k - 1, col + 1);
    }
}

/// Three backticks open a block of code where at most three spaces stand before them and no
/// backtick behind them.
pub proof fn law_fence_opens_a_block(s: Seq<char>, i: int, k: int)
    requires
        line_starts(s, i),
        0 <= k <= 3,
        i + k < s.len(),
        forall|j: int| i <= j < i + k ==> #[trigger] s[j] == ' ',
        ticks(s, i + k) >= 3,
        no_tick_from(s, i + k + ticks(s, i + k)),
    ensures
        opens_block(s, i, Seq::empty()),
{
    lemma_spaces_reach(s, i, k, 0);
    assert(s[i + k] == '`');
    assert(reach(s, i + k, k) == k);
    assert(past_blanks(s, i + k) == i + k);
    assert(digits(s, i + k) == 0);
    assert(item_mark(s, i + k) == 0);
}

/// A line that is indented by four spaces or more opens no block of code, whatever stands
/// on it.
pub proof fn law_indented_fence_opens_nothing(s: Seq<char>, i: int)
    requires
        0 <= i,
        i + 4 <= s.len(),
        s[i] == ' ',
        s[i + 1] == ' ',
        s[i + 2] == ' ',
        s[i + 3] == ' ',
    ensures
        !opens_block(s, i, Seq::empty()),
{
    lemma_spaces_reach(s, i, 4, 0);
    lemma_reach(s, i + 4, 4);
}

} // verus!
