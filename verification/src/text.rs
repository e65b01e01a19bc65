//! Text as sequences of characters.
use vstd::prelude::*;

verus! {

/// `String::push` appends one character.
pub assume_specification[ String::push ](s: &mut String, ch: char)
    ensures
        final(s)@ == old(s)@.push(ch),
;

/// `String::push_str` appends a whole string.
pub assume_specification[ String::push_str ](s: &mut String, string: &str)
    ensures
        final(s)@ == old(s)@ + string@,
;

/// The characters of `s` as a vector.
pub fn chars_of(s: &str) -> (r: Vec<char>)
    ensures
        r@ == s@,
{
    let mut out: Vec<char> = Vec::new();
    for c in it: s.chars()
        invariant
            it.seq() == s@,
            out@ == s@.take(it.index()),
    {
        out.push(c);
        assert(s@.take(it.index() + 1) =~= s@.take(it.index()).push(c));
    }
    assert(s@.take(s@.len() as int) =~= s@);
    out
}

/// How many characters `s` has.
pub fn char_count(s: &str) -> (n: usize)
    ensures
        n == s@.len(),
{
    chars_of(s).len()
}

/// The string made of the characters `cs`.
pub fn string_of(cs: &[char]) -> (r: String)
    ensures
        r@ == cs@,
{
    let mut out = String::new();
    let mut i: usize = 0;
    while i < cs.len()
        invariant
            i <= cs@.len(),
            out@ == cs@.take(i as int),
        decreases cs@.len() - i,
    {
        out.push(cs[i]);
        i += 1;
        assert(cs@.take(i as int) =~= cs@.take(i - 1).push(cs@[i - 1]));
    }
    assert(cs@.take(cs@.len() as int) =~= cs@);
    out
}

/// `a` comes strictly before `b` in the order of strings: by the first
/// character in which they differ, a proper prefix first.
pub open spec fn lex_lt(a: Seq<char>, b: Seq<char>) -> bool
    decreases a.len(),
{
    if b.len() == 0 {
        false
    } else if a.len() == 0 {
        true
    } else if a[0] != b[0] {
        a[0] < b[0]
    } else {
        lex_lt(a.skip(1), b.skip(1))
    }
}

pub proof fn lemma_lex_lt_asymmetric(a: Seq<char>, b: Seq<char>)
    requires
        lex_lt(a, b),
    ensures
        !lex_lt(b, a),
        a != b,
    decreases a.len(),
{
    if a.len() > 0 && a[0] == b[0] {
        lemma_lex_lt_asymmetric(a.skip(1), b.skip(1));
    }
}

pub proof fn lemma_lex_lt_total(a: Seq<char>, b: Seq<char>)
    ensures
        lex_lt(a, b) || lex_lt(b, a) || a == b,
    decreases a.len(),
{
    if a.len() == 0 || b.len() == 0 {
        if a.len() == b.len() {
            assert(a =~= b);
        }
    } else if a[0] == b[0] {
        lemma_lex_lt_total(a.skip(1), b.skip(1));
        if a.skip(1) == b.skip(1) {
            assert(a =~= seq![a[0]] + a.skip(1));
            assert(b =~= seq![b[0]] + b.skip(1));
        }
    }
}

pub proof fn lemma_lex_lt_transitive(a: Seq<char>, b: Seq<char>, c: Seq<char>)
    requires
        lex_lt(a, b),
        lex_lt(b, c),
    ensures
        lex_lt(a, c),
    decreases a.len(),
{
    if a.len() > 0 && a[0] == b[0] && b[0] == c[0] {
        lemma_lex_lt_transitive(a.skip(1), b.skip(1), c.skip(1));
    }
}

/// Whether `a` comes strictly before `b`.
pub fn str_lt(a: &str, b: &str) -> (r: bool)
    ensures
        r == lex_lt(a@, b@),
{
    let x = chars_of(a);
    let y = chars_of(b);
    let mut i: usize = 0;
    assert(a@.skip(0) =~= a@);
    assert(b@.skip(0) =~= b@);
    while i < x.len() && i < y.len()
        invariant
            i <= x@.len(),
            i <= y@.len(),
            x@ == a@,
            y@ == b@,
            lex_lt(a@, b@) == lex_lt(a@.skip(i as int), b@.skip(i as int)),
        decreases x@.len() - i,
    {
        if x[i] != y[i] {
            return x[i] < y[i];
        }
        assert(a@.skip(i as int).skip(1) =~= a@.skip(i + 1));
        assert(b@.skip(i as int).skip(1) =~= b@.skip(i + 1));
        i += 1;
    }
    i < y.len()
}

/// Whether two strings hold the same characters.
pub fn str_eq(a: &str, b: &str) -> (r: bool)
    ensures
        r == (a@ == b@),
{
    let x = a.as_bytes();
    let y = b.as_bytes();
    proof {
        vstd::utf8::encode_utf8_decode_utf8(a@);
        vstd::utf8::encode_utf8_decode_utf8(b@);
    }
    if x.len() != y.len() {
        return false;
    }
    let mut i: usize = 0;
    while i < x.len()
        invariant
            i <= x@.len(),
            x@.len() == y@.len(),
            x@ == vstd::utf8::encode_utf8(a@),
            y@ == vstd::utf8::encode_utf8(b@),
            forall|j: int| 0 <= j < i ==> x@[j] == y@[j],
        decreases x@.len() - i,
    {
        if x[i] != y[i] {
            return false;
        }
        i += 1;
    }
    assert(x@ =~= y@);
    true
}

/// How many bytes `s` takes in UTF-8.
pub open spec fn byte_len(s: Seq<char>) -> nat {
    vstd::utf8::encode_utf8(s).len()
}

/// How many bytes `s` takes in UTF-8.
pub fn byte_count(s: &str) -> (n: usize)
    ensures
        n == byte_len(s@),
{
    s.as_bytes().len()
}

/// How many bytes `c` takes in UTF-8.
pub open spec fn width(c: char) -> nat {
    let v = c as u32;
    if v < 0x80 {
        1
    } else if v < 0x800 {
        2
    } else if v < 0x10000 {
        3
    } else {
        4
    }
}

/// How many bytes `c` takes in UTF-8.
pub fn char_width(c: char) -> (r: usize)
    ensures
        r == width(c),
{
    let v = c as u32;
    if v < 0x80 {
        1
    } else if v < 0x800 {
        2
    } else if v < 0x10000 {
        3
    } else {
        4
    }
}

/// The bytes of a text are those of its first character and of the rest.
pub proof fn lemma_byte_len_first(s: Seq<char>)
    requires
        s.len() > 0,
    ensures
        byte_len(s) == width(s[0]) + byte_len(s.skip(1)),
{
    vstd::utf8::char_is_scalar(s[0]);
    assert(s.drop_first() =~= s.skip(1));
}

/// The bytes of two texts put together.
pub proof fn lemma_byte_len_concat(a: Seq<char>, b: Seq<char>)
    ensures
        byte_len(a + b) == byte_len(a) + byte_len(b),
    decreases a.len(),
{
    if a.len() == 0 {
        assert(a + b =~= b);
    } else {
        lemma_byte_len_first(a);
        lemma_byte_len_first(a + b);
        assert((a + b).skip(1) =~= a.skip(1) + b);
        lemma_byte_len_concat(a.skip(1), b);
    }
}

/// How many characters `s` starts with that together take at most `max` bytes.
pub open spec fn fitting(s: Seq<char>, max: int) -> int
    decreases s.len(),
{
    if s.len() == 0 || width(s[0]) > max {
        0
    } else {
        1 + fitting(s.skip(1), max - width(s[0]))
    }
}

/// The longest prefix of `s` that takes at most `max` bytes: it does take no
/// more, and with one character more it would.
pub proof fn law_fitting_is_longest(s: Seq<char>, max: int)
    requires
        0 <= max,
    ensures
        0 <= fitting(s, max) <= s.len(),
        byte_len(s.take(fitting(s, max))) <= max,
        fitting(s, max) < s.len() ==> byte_len(s.take(fitting(s, max) + 1)) > max,
    decreases s.len(),
{
    let n = fitting(s, max);
    if s.len() == 0 {
        assert(s.take(0) =~= Seq::empty());
    } else if width(s[0]) > max {
        assert(s.take(0) =~= Seq::empty());
        lemma_byte_len_first(s.take(1));
    } else {
        let rest = s.skip(1);
        law_fitting_is_longest(rest, max - width(s[0]));
        lemma_byte_len_first(s.take(n));
        assert(s.take(n).skip(1) =~= rest.take(n - 1));
        if n < s.len() {
            lemma_byte_len_first(s.take(n + 1));
            assert(s.take(n + 1).skip(1) =~= rest.take(n));
        }
    }
}

/// How many characters `cs` starts with that together take at most `max` bytes.
pub fn count_fitting(cs: &[char], max: usize) -> (r: usize)
    ensures
        r == fitting(cs@, max as int),
        r <= cs@.len(),
{
    let mut left: usize = max;
    let mut i: usize = 0;
    assert(cs@.skip(0) =~= cs@);
    while i < cs.len()
        invariant
            i <= cs@.len(),
            fitting(cs@, max as int) == i + fitting(cs@.skip(i as int), left as int),
        decreases cs@.len() - i,
    {
        let w = char_width(cs[i]);
        if w > left {
            return i;
        }
        assert(cs@.skip(i as int).skip(1) =~= cs@.skip(i + 1));
        left = left - w;
        i += 1;
    }
    i
}

/// How many characters `s` ends with that together take at most `max` bytes.
pub open spec fn fitting_back(s: Seq<char>, max: int) -> int
    decreases s.len(),
{
    if s.len() == 0 || width(s.last()) > max {
        0
    } else {
        1 + fitting_back(s.drop_last(), max - width(s.last()))
    }
}

/// The bytes of a text are those of its last character and of what is before it.
pub proof fn lemma_byte_len_last(s: Seq<char>)
    requires
        s.len() > 0,
    ensures
        byte_len(s) == byte_len(s.drop_last()) + width(s.last()),
{
    let one = seq![s.last()];
    assert(s =~= s.drop_last() + one);
    lemma_byte_len_concat(s.drop_last(), one);
    lemma_byte_len_first(one);
    assert(one.skip(1) =~= Seq::empty());
}

/// The longest suffix of `s` that takes at most `max` bytes: it does take no
/// more, and with one character more it would.
pub proof fn law_fitting_back_is_longest(s: Seq<char>, max: int)
    requires
        0 <= max,
    ensures
        0 <= fitting_back(s, max) <= s.len(),
        byte_len(s.skip(s.len() - fitting_back(s, max))) <= max,
        fitting_back(s, max) < s.len() ==> byte_len(s.skip(s.len() - fitting_back(s, max) - 1))
            > max,
    decreases s.len(),
{
    let n = fitting_back(s, max);
    let len = s.len() as int;
    if s.len() == 0 {
        assert(s.skip(0) =~= Seq::empty());
    } else if width(s.last()) > max {
        assert(s.skip(len) =~= Seq::empty());
        lemma_byte_len_last(s.skip(len - 1));
    } else {
        let rest = s.drop_last();
        law_fitting_back_is_longest(rest, max - width(s.last()));
        lemma_byte_len_last(s.skip(len - n));
        assert(s.skip(len - n).drop_last() =~= rest.skip(len - n));
        if n < len {
            lemma_byte_len_last(s.skip(len - n - 1));
            assert(s.skip(len - n - 1).drop_last() =~= rest.skip(len - n - 1));
        }
    }
}

/// How many characters `cs` ends with that together take at most `max` bytes.
pub fn count_fitting_back(cs: &[char], max: usize) -> (r: usize)
    ensures
        r == fitting_back(cs@, max as int),
        r <= cs@.len(),
{
    let mut left: usize = max;
    let mut i: usize = cs.len();
    let mut n: usize = 0;
    assert(cs@.take(i as int) =~= cs@);
    while i > 0
        invariant
            i <= cs@.len(),
            n == cs@.len() - i,
            fitting_back(cs@, max as int) == n + fitting_back(cs@.take(i as int), left as int),
        decreases i,
    {
        let w = char_width(cs[i - 1]);
        if w > left {
            return n;
        }
        assert(cs@.take(i as int).drop_last() =~= cs@.take(i - 1));
        left = left - w;
        i -= 1;
        n += 1;
    }
    n
}

/// How many characters of `s` start before byte `max`.
pub open spec fn starting_before(s: Seq<char>, max: int) -> int
    decreases s.len(),
{
    if s.len() == 0 || max <= 0 {
        0
    } else {
        1 + starting_before(s.skip(1), max - width(s[0]))
    }
}

/// How many characters of `cs` start before byte `max`.
pub fn count_starting_before(cs: &[char], max: usize) -> (r: usize)
    ensures
        r == starting_before(cs@, max as int),
        r <= cs@.len(),
{
    let mut left: usize = max;
    let mut i: usize = 0;
    assert(cs@.skip(0) =~= cs@);
    while i < cs.len() && left > 0
        invariant
            i <= cs@.len(),
            starting_before(cs@, max as int) == i + starting_before(
                cs@.skip(i as int),
                left as int,
            ),
        decreases cs@.len() - i,
    {
        let w = char_width(cs[i]);
        assert(cs@.skip(i as int).skip(1) =~= cs@.skip(i + 1));
        assert(starting_before(cs@.skip(i + 1), left - w) == starting_before(
            cs@.skip(i + 1),
            if w <= left {
                left - w
            } else {
                0
            },
        ));
        left = if w <= left {
            left - w
        } else {
            0
        };
        i += 1;
    }
    i
}

/// `s` without the slashes it ends with.
pub open spec fn trim_slashes(s: Seq<char>) -> Seq<char>
    decreases s.len(),
{
    if s.len() > 0 && s.last() == '/' {
        trim_slashes(s.drop_last())
    } else {
        s
    }
}

/// `s` without the slashes it ends with.
pub fn trimmed_slashes(s: &str) -> (r: String)
    ensures
        r@ == trim_slashes(s@),
{
    let cs = chars_of(s);
    let mut n: usize = cs.len();
    assert(cs@.take(n as int) =~= cs@);
    while n > 0 && cs[n - 1] == '/'
        invariant
            n <= cs@.len(),
            cs@ == s@,
            trim_slashes(s@) == trim_slashes(s@.take(n as int)),
        decreases n,
    {
        assert(s@.take(n as int).drop_last() =~= s@.take(n - 1));
        n -= 1;
    }
    let r = slice_of(cs.as_slice(), 0, n);
    assert(r@ =~= s@.take(n as int));
    r
}

/// What an optional string holds.
pub open spec fn opt(s: Option<String>) -> Option<Seq<char>> {
    match s {
        Some(x) => Some(x@),
        None => None,
    }
}

/// A copy of an optional string.
pub fn clone_opt(s: &Option<String>) -> (r: Option<String>)
    ensures
        opt(r) == opt(*s),
{
    match s {
        Some(x) => Some(x.clone()),
        None => None,
    }
}

/// What a list of strings holds.
pub open spec fn views(v: Seq<String>) -> Seq<Seq<char>> {
    Seq::new(v.len(), |i: int| v[i]@)
}

/// The first `n` characters of `s`, or all of it where it is no longer.
pub open spec fn prefix(s: Seq<char>, n: nat) -> Seq<char> {
    if s.len() <= n {
        s
    } else {
        s.take(n as int)
    }
}

/// The characters of `cs` from `from` up to `to`.
pub fn slice_of(cs: &[char], from: usize, to: usize) -> (r: String)
    requires
        from <= to <= cs@.len(),
    ensures
        r@ == cs@.subrange(from as int, to as int),
{
    let mut out = String::new();
    let mut i: usize = from;
    while i < to
        invariant
            from <= i <= to <= cs@.len(),
            out@ == cs@.subrange(from as int, i as int),
        decreases to - i,
    {
        out.push(cs[i]);
        i += 1;
        assert(cs@.subrange(from as int, i as int) =~= cs@.subrange(from as int, i - 1).push(
            cs@[i - 1],
        ));
    }
    out
}

/// The first `n` characters of `s`.
pub fn take_chars(s: &str, n: usize) -> (r: String)
    ensures
        r@ == prefix(s@, n as nat),
{
    let cs = chars_of(s);
    let end: usize = if cs.len() <= n {
        cs.len()
    } else {
        n
    };
    let r = slice_of(cs.as_slice(), 0, end);
    assert(r@ =~= prefix(s@, n as nat));
    r
}

/// The white space of Unicode.
pub open spec fn is_space(c: char) -> bool {
    ||| '\u{9}' <= c <= '\u{d}'
    ||| c == ' '
    ||| c == '\u{85}'
    ||| c == '\u{a0}'
    ||| c == '\u{1680}'
    ||| '\u{2000}' <= c <= '\u{200a}'
    ||| c == '\u{2028}'
    ||| c == '\u{2029}'
    ||| c == '\u{202f}'
    ||| c == '\u{205f}'
    ||| c == '\u{3000}'
}

/// Whether `c` is white space.
pub fn char_is_space(c: char) -> (r: bool)
    ensures
        r == is_space(c),
{
    ('\u{9}' <= c && c <= '\u{d}') || c == ' ' || c == '\u{85}' || c == '\u{a0}' || c == '\u{1680}'
        || ('\u{2000}' <= c && c <= '\u{200a}') || c == '\u{2028}' || c == '\u{2029}' || c
        == '\u{202f}' || c == '\u{205f}' || c == '\u{3000}'
}

/// `s` without the white space it starts with.
pub open spec fn trim_start(s: Seq<char>) -> Seq<char>
    decreases s.len(),
{
    if s.len() > 0 && is_space(s[0]) {
        trim_start(s.skip(1))
    } else {
        s
    }
}

/// `s` without the white space it ends with.
pub open spec fn trim_end(s: Seq<char>) -> Seq<char>
    decreases s.len(),
{
    if s.len() > 0 && is_space(s.last()) {
        trim_end(s.drop_last())
    } else {
        s
    }
}

/// `s` without the white space at both ends.
pub open spec fn trim(s: Seq<char>) -> Seq<char> {
    trim_end(trim_start(s))
}

/// Where `cs` starts once leading white space is gone.
fn start_of(cs: &[char]) -> (i: usize)
    ensures
        i <= cs@.len(),
        cs@.skip(i as int) == trim_start(cs@),
{
    let mut i: usize = 0;
    assert(cs@.skip(0) =~= cs@);
    while i < cs.len() && char_is_space(cs[i])
        invariant
            i <= cs@.len(),
            trim_start(cs@.skip(i as int)) == trim_start(cs@),
        decreases cs@.len() - i,
    {
        assert(cs@.skip(i as int).skip(1) =~= cs@.skip(i + 1));
        i += 1;
    }
    i
}

/// Where `cs` from `from` on ends once trailing white space is gone.
fn end_of(cs: &[char], from: usize) -> (i: usize)
    requires
        from <= cs@.len(),
    ensures
        from <= i <= cs@.len(),
        cs@.subrange(from as int, i as int) == trim_end(cs@.skip(from as int)),
{
    let mut i: usize = cs.len();
    assert(cs@.subrange(from as int, i as int) =~= cs@.skip(from as int));
    while i > from && char_is_space(cs[i - 1])
        invariant
            from <= i <= cs@.len(),
            trim_end(cs@.subrange(from as int, i as int)) == trim_end(cs@.skip(from as int)),
        decreases i,
    {
        assert(cs@.subrange(from as int, i as int).drop_last() =~= cs@.subrange(
            from as int,
            i - 1,
        ));
        i -= 1;
    }
    i
}

/// `s` without the white space at both ends.
pub fn trimmed(s: &str) -> (r: String)
    ensures
        r@ == trim(s@),
{
    let cs = chars_of(s);
    let a = start_of(cs.as_slice());
    let b = end_of(cs.as_slice(), a);
    slice_of(cs.as_slice(), a, b)
}

/// `s` without the white space it ends with.
pub fn trimmed_end(s: &str) -> (r: String)
    ensures
        r@ == trim_end(s@),
{
    let cs = chars_of(s);
    let b = end_of(cs.as_slice(), 0);
    assert(cs@.skip(0) =~= cs@);
    slice_of(cs.as_slice(), 0, b)
}

/// `needle` stands in `hay` at position `i`.
pub open spec fn occurs_at(hay: Seq<char>, needle: Seq<char>, i: int) -> bool {
    0 <= i && i + needle.len() <= hay.len() && hay.subrange(i, i + needle.len()) == needle
}

/// The first position from `from` on at which `needle` stands in `hay`.
pub open spec fn find_from(hay: Seq<char>, needle: Seq<char>, from: int) -> Option<int>
    decreases hay.len() + 1 - from,
{
    if from < 0 || from + needle.len() > hay.len() {
        None
    } else if occurs_at(hay, needle, from) {
        Some(from)
    } else {
        find_from(hay, needle, from + 1)
    }
}

/// `needle` stands somewhere in `hay`.
pub open spec fn contains_str(hay: Seq<char>, needle: Seq<char>) -> bool {
    find_from(hay, needle, 0) is Some
}

pub proof fn lemma_find_from(hay: Seq<char>, needle: Seq<char>, from: int)
    requires
        0 <= from,
    ensures
        match find_from(hay, needle, from) {
            Some(i) => {
                &&& from <= i
                &&& i + needle.len() <= hay.len()
                &&& occurs_at(hay, needle, i)
                &&& forall|j: int| from <= j < i ==> !#[trigger] occurs_at(hay, needle, j)
            },
            None => forall|j: int| from <= j ==> !#[trigger] occurs_at(hay, needle, j),
        },
    decreases hay.len() + 1 - from,
{
    if from + needle.len() > hay.len() {
    } else if occurs_at(hay, needle, from) {
    } else {
        lemma_find_from(hay, needle, from + 1);
    }
}

/// Whether `needle` stands in `hay` at position `i`.
pub fn stands_at(hay: &[char], needle: &[char], i: usize) -> (r: bool)
    ensures
        r == occurs_at(hay@, needle@, i as int),
{
    if needle.len() > hay.len() || i > hay.len() - needle.len() {
        return false;
    }
    let room: usize = hay.len();
    let mut k: usize = 0;
    while k < needle.len()
        invariant
            k <= needle@.len(),
            room == hay@.len(),
            i + needle@.len() <= hay@.len(),
            forall|j: int| 0 <= j < k ==> hay@[i + j] == needle@[j],
        decreases needle@.len() - k,
    {
        if hay[i + k] != needle[k] {
            assert(hay@.subrange(i as int, i + needle@.len())[k as int] != needle@[k as int]);
            return false;
        }
        k += 1;
    }
    assert(hay@.subrange(i as int, i + needle@.len()) =~= needle@);
    true
}

/// The first position from `from` on at which `needle` stands in `hay`.
pub fn find_in(hay: &[char], needle: &[char], from: usize) -> (r: Option<usize>)
    ensures
        match r {
            Some(i) => find_from(hay@, needle@, from as int) == Some(i as int),
            None => find_from(hay@, needle@, from as int) is None,
        },
{
    let mut i: usize = from;
    if needle.len() > hay.len() {
        return None;
    }
    while i <= hay.len() - needle.len()
        invariant
            from <= i,
            needle@.len() <= hay@.len(),
            find_from(hay@, needle@, from as int) == find_from(hay@, needle@, i as int),
        decreases hay@.len() + 1 - i,
    {
        if stands_at(hay, needle, i) {
            return Some(i);
        }
        if i == hay.len() {
            assert(find_from(hay@, needle@, i + 1) is None);
            return None;
        }
        i += 1;
    }
    None
}

/// Whether `needle` stands somewhere in `hay`.
pub fn str_contains(hay: &str, needle: &str) -> (r: bool)
    ensures
        r == contains_str(hay@, needle@),
{
    let h = chars_of(hay);
    let n = chars_of(needle);
    find_in(h.as_slice(), n.as_slice(), 0).is_some()
}

/// Whether `s` starts with `p`.
pub fn str_starts_with(s: &str, p: &str) -> (r: bool)
    ensures
        r == p@.is_prefix_of(s@),
{
    let h = chars_of(s);
    let n = chars_of(p);
    let r = stands_at(h.as_slice(), n.as_slice(), 0);
    assert(r ==> s@.subrange(0, p@.len() as int) =~= p@);
    assert(p@.is_prefix_of(s@) ==> s@.subrange(0, p@.len() as int) =~= p@);
    r
}

/// `hay` from `from` on with `to` in place of `needle`, wherever it stands from
/// left to right.
pub open spec fn replace_from(
    hay: Seq<char>,
    needle: Seq<char>,
    to: Seq<char>,
    from: int,
) -> Seq<char>
    decreases hay.len() - from,
{
    match find_from(hay, needle, from) {
        Some(i) => if needle.len() > 0 && from <= i && i + needle.len() <= hay.len() {
            hay.subrange(from, i) + to + replace_from(hay, needle, to, i + needle.len())
        } else {
            hay.skip(from)
        },
        None => hay.skip(from),
    }
}

/// `to` before every character of `hay` and at its end.
pub open spec fn interspersed(hay: Seq<char>, to: Seq<char>) -> Seq<char>
    decreases hay.len(),
{
    if hay.len() == 0 {
        to
    } else {
        interspersed(hay.drop_last(), to).push(hay.last()) + to
    }
}

/// `hay` with `to` in place of every `needle`. The empty needle stands before
/// every character and at the end.
pub open spec fn replace(hay: Seq<char>, needle: Seq<char>, to: Seq<char>) -> Seq<char> {
    if needle.len() == 0 {
        interspersed(hay, to)
    } else {
        replace_from(hay, needle, to, 0)
    }
}

/// How often `needle` stands in `hay`, counted left to right without overlap.
pub open spec fn count(hay: Seq<char>, needle: Seq<char>) -> nat {
    if needle.len() == 0 {
        hay.len() + 1
    } else {
        count_from(hay, needle, 0)
    }
}

/// How often `needle` stands in `hay` from `from` on, counted left to right
/// without overlap.
pub open spec fn count_from(hay: Seq<char>, needle: Seq<char>, from: int) -> nat
    decreases hay.len() - from,
{
    match find_from(hay, needle, from) {
        Some(i) => if needle.len() > 0 && from <= i && i + needle.len() <= hay.len() {
            1 + count_from(hay, needle, i + needle.len())
        } else {
            0
        },
        None => 0,
    }
}

/// `needle` stands in `hay` at position `i` and nowhere else.
pub open spec fn stands_only_at(hay: Seq<char>, needle: Seq<char>, i: int) -> bool {
    &&& occurs_at(hay, needle, i)
    &&& forall|j: int| #[trigger] occurs_at(hay, needle, j) ==> j == i
}

/// `needle` stands in `hay` at exactly one position.
pub open spec fn stands_once(hay: Seq<char>, needle: Seq<char>) -> bool {
    exists|i: int| stands_only_at(hay, needle, i)
}

/// Whether `needle` stands in `hay` at exactly one position.
pub fn stands_once_in(hay: &str, needle: &str) -> (r: bool)
    ensures
        r == stands_once(hay@, needle@),
{
    let h = chars_of(hay);
    let n = chars_of(needle);
    proof {
        lemma_find_from(hay@, needle@, 0);
    }
    match find_in(h.as_slice(), n.as_slice(), 0) {
        None => {
            assert forall|i: int| !stands_only_at(hay@, needle@, i) by {
                if stands_only_at(hay@, needle@, i) {
                    assert(0 <= i);
                }
            }
            false
        },
        Some(i) => {
            if i == h.len() {
                assert forall|j: int| #[trigger] occurs_at(hay@, needle@, j) implies j == i by {}
                assert(stands_only_at(hay@, needle@, i as int));
                return true;
            }
            proof {
                lemma_find_from(hay@, needle@, i + 1);
            }
            match find_in(h.as_slice(), n.as_slice(), i + 1) {
                None => {
                    assert(stands_only_at(hay@, needle@, i as int));
                    true
                },
                Some(k) => {
                    assert(occurs_at(hay@, needle@, i as int) && occurs_at(hay@, needle@, k as int));
                    false
                },
            }
        },
    }
}

/// At how many positions `needle` stands in `hay` from `from` on.
pub open spec fn places_from(hay: Seq<char>, needle: Seq<char>, from: int) -> nat
    decreases hay.len() + 1 - from,
{
    if from < 0 || from > hay.len() {
        0
    } else {
        places_from(hay, needle, from + 1) + (if occurs_at(hay, needle, from) {
            1nat
        } else {
            0nat
        })
    }
}

/// At how many positions `needle` stands in `hay`, as far as the number fits.
pub fn count_places(hay: &str, needle: &str) -> (r: usize)
    ensures
        r == (if places_from(hay@, needle@, 0) <= usize::MAX {
            places_from(hay@, needle@, 0)
        } else {
            usize::MAX as nat
        }),
{
    let h = chars_of(hay);
    let n = chars_of(needle);
    let mut seen: usize = 0;
    if stands_at(h.as_slice(), n.as_slice(), h.len()) {
        seen = 1;
    }
    assert(places_from(hay@, needle@, hay@.len() as int + 1) == 0);
    let mut i: usize = h.len();
    while i > 0
        invariant
            i <= h@.len(),
            h@ == hay@,
            n@ == needle@,
            seen == (if places_from(hay@, needle@, i as int) <= usize::MAX {
                places_from(hay@, needle@, i as int)
            } else {
                usize::MAX as nat
            }),
        decreases i,
    {
        i -= 1;
        if stands_at(h.as_slice(), n.as_slice(), i) {
            seen = seen.saturating_add(1);
        }
    }
    seen
}

/// `hay` with `to` in place of every `needle`.
pub fn str_replace(hay: &str, needle: &str, to: &str) -> (r: String)
    ensures
        r@ == replace(hay@, needle@, to@),
{
    let h = chars_of(hay);
    let n = chars_of(needle);
    let room: usize = h.len();
    if n.len() == 0 {
        return intersperse(h.as_slice(), to);
    }
    let mut out = String::new();
    let mut from: usize = 0;
    assert(replace(hay@, needle@, to@) =~= out@ + replace_from(hay@, needle@, to@, 0));
    loop
        invariant
            h@ == hay@,
            n@ == needle@,
            needle@.len() > 0,
            room == h@.len(),
            from <= h@.len(),
            replace(hay@, needle@, to@) == out@ + replace_from(
                hay@,
                needle@,
                to@,
                from as int,
            ),
        decreases h@.len() - from,
    {
        proof {
            lemma_find_from(hay@, needle@, from as int);
        }
        let next = find_in(h.as_slice(), n.as_slice(), from);
        match next {
            None => {
                let rest = slice_of(h.as_slice(), from, h.len());
                assert(rest@ =~= hay@.skip(from as int));
                out.push_str(rest.as_str());
                return out;
            },
            Some(i) => {
                let ghost before = out@;
                let part = slice_of(h.as_slice(), from, i);
                out.push_str(part.as_str());
                out.push_str(to);
                let ghost rest = replace_from(hay@, needle@, to@, i + needle@.len());
                from = i + n.len();
                assert(before + (part@ + to@ + rest) =~= out@ + rest);
            },
        }
    }
}

/// A character that neither `s` nor what is put in holds is not in the result of
/// a replacement.
pub proof fn lemma_replace_adds_no(s: Seq<char>, needle: Seq<char>, to: Seq<char>, d: char, from: int)
    requires
        needle.len() > 0,
        0 <= from <= s.len(),
        !s.contains(d),
        !to.contains(d),
    ensures
        !replace_from(s, needle, to, from).contains(d),
    decreases s.len() - from,
{
    lemma_find_from(s, needle, from);
    match find_from(s, needle, from) {
        Some(i) => {
            lemma_replace_adds_no(s, needle, to, d, i + needle.len());
            let head = s.subrange(from, i);
            let rest = replace_from(s, needle, to, i + needle.len());
            let all = head + to + rest;
            assert forall|k: int| 0 <= k < all.len() implies all[k] != d by {
                if k < head.len() {
                    assert(s.contains(s[from + k]));
                } else if k < head.len() + to.len() {
                    assert(to.contains(to[k - head.len()]));
                } else {
                    assert(rest.contains(rest[k - head.len() - to.len()]));
                }
            }
        },
        None => {
            let rest = s.skip(from);
            assert forall|k: int| 0 <= k < rest.len() implies rest[k] != d by {
                assert(s.contains(s[from + k]));
            }
        },
    }
}

/// A character that is replaced by text without it is gone.
pub proof fn lemma_replace_char_gone(s: Seq<char>, c: char, to: Seq<char>, from: int)
    requires
        0 <= from <= s.len(),
        !to.contains(c),
    ensures
        !replace_from(s, seq![c], to, from).contains(c),
    decreases s.len() - from,
{
    let one = seq![c];
    lemma_find_from(s, one, from);
    match find_from(s, one, from) {
        Some(i) => {
            lemma_replace_char_gone(s, c, to, i + 1);
            let head = s.subrange(from, i);
            let rest = replace_from(s, one, to, i + 1);
            let all = head + to + rest;
            assert forall|k: int| 0 <= k < all.len() implies all[k] != c by {
                if k < head.len() {
                    assert(!occurs_at(s, one, from + k));
                    if s[from + k] == c {
                        assert(s.subrange(from + k, from + k + 1) =~= one);
                    }
                } else if k < head.len() + to.len() {
                    assert(to.contains(to[k - head.len()]));
                } else {
                    assert(rest.contains(rest[k - head.len() - to.len()]));
                }
            }
        },
        None => {
            let rest = s.skip(from);
            assert forall|k: int| 0 <= k < rest.len() implies rest[k] != c by {
                assert(!occurs_at(s, one, from + k));
                if s[from + k] == c {
                    assert(s.subrange(from + k, from + k + 1) =~= one);
                }
            }
        },
    }
}

fn intersperse(hay: &[char], to: &str) -> (r: String)
    ensures
        r@ == interspersed(hay@, to@),
{
    let mut out = to.to_owned();
    let mut i: usize = 0;
    assert(hay@.take(0) =~= Seq::empty());
    while i < hay.len()
        invariant
            i <= hay@.len(),
            out@ == interspersed(hay@.take(i as int), to@),
        decreases hay@.len() - i,
    {
        assert(hay@.take(i + 1).drop_last() =~= hay@.take(i as int));
        out.push(hay[i]);
        out.push_str(to);
        i += 1;
    }
    assert(hay@.take(i as int) =~= hay@);
    out
}

/// How often `needle` stands in `hay`, counted left to right without overlap, as
/// far as the number fits.
pub fn str_count(hay: &str, needle: &str) -> (r: usize)
    ensures
        r == (if count(hay@, needle@) <= usize::MAX {
            count(hay@, needle@)
        } else {
            usize::MAX as nat
        }),
{
    let h = chars_of(hay);
    let n = chars_of(needle);
    let room: usize = h.len();
    if n.len() == 0 {
        return room.saturating_add(1);
    }
    let mut from: usize = 0;
    let mut seen: usize = 0;
    loop
        invariant
            h@ == hay@,
            n@ == needle@,
            needle@.len() > 0,
            room == h@.len(),
            from <= h@.len(),
            seen <= from,
            count(hay@, needle@) == seen + count_from(hay@, needle@, from as int),
        decreases h@.len() - from,
    {
        proof {
            lemma_find_from(hay@, needle@, from as int);
        }
        match find_in(h.as_slice(), n.as_slice(), from) {
            None => {
                return seen;
            },
            Some(i) => {
                seen = seen + 1;
                from = i + n.len();
            },
        }
    }
}

/// A line without the carriage return at its end.
pub open spec fn strip_cr(s: Seq<char>) -> Seq<char> {
    if s.len() > 0 && s.last() == '\r' {
        s.drop_last()
    } else {
        s
    }
}

/// The lines of `s`: each ends with a line feed, or a carriage return and a line
/// feed, which are not part of it; the last one may lack that end.
pub open spec fn lines(s: Seq<char>) -> Seq<Seq<char>>
    decreases s.len(),
{
    if s.len() == 0 {
        Seq::empty()
    } else {
        match find_from(s, seq!['\n'], 0) {
            Some(i) => if 0 <= i < s.len() {
                seq![strip_cr(s.take(i))] + lines(s.skip(i + 1))
            } else {
                seq![s]
            },
            None => seq![s],
        }
    }
}

/// The text of `ls` with a line feed after each.
pub open spec fn framed(ls: Seq<Seq<char>>) -> Seq<char>
    decreases ls.len(),
{
    if ls.len() == 0 {
        Seq::empty()
    } else {
        ls[0] + seq!['\n'] + framed(ls.skip(1))
    }
}

/// One more line comes last.
pub proof fn lemma_framed_push(ls: Seq<Seq<char>>, line: Seq<char>)
    ensures
        framed(ls.push(line)) == framed(ls) + line.push('\n'),
    decreases ls.len(),
{
    reveal_with_fuel(framed, 2);
    if ls.len() == 0 {
        assert(ls.push(line).skip(1) =~= Seq::empty());
        assert(framed(ls.push(line)) =~= line.push('\n'));
    } else {
        lemma_framed_push(ls.skip(1), line);
        assert(ls.push(line).skip(1) =~= ls.skip(1).push(line));
        assert(framed(ls.push(line)) =~= framed(ls) + line.push('\n'));
    }
}

/// The first `c` in `s` is where every character before it is another.
pub proof fn lemma_find_char(s: Seq<char>, c: char, n: int)
    requires
        0 <= n < s.len(),
        s[n] == c,
        forall|j: int| 0 <= j < n ==> #[trigger] s[j] != c,
    ensures
        find_from(s, seq![c], 0) == Some(n),
{
    lemma_find_from(s, seq![c], 0);
    assert(s.subrange(n, n + 1) =~= seq![c]);
    assert(occurs_at(s, seq![c], n));
    assert forall|j: int| 0 <= j < n implies !#[trigger] occurs_at(s, seq![c], j) by {
        assert(s.subrange(j, j + 1)[0] == s[j]);
    }
}

/// No `c` is found in `s` where it holds none.
pub proof fn lemma_find_no_char(s: Seq<char>, c: char)
    requires
        !s.contains(c),
    ensures
        find_from(s, seq![c], 0) is None,
{
    lemma_find_from(s, seq![c], 0);
    if find_from(s, seq![c], 0) is Some {
        let i = find_from(s, seq![c], 0)->0;
        assert(s.subrange(i, i + 1)[0] == s[i]);
    }
}

/// The lines of a text that starts with one framed line.
pub proof fn lemma_first_line(line: Seq<char>, rest: Seq<char>)
    requires
        !line.contains('\n'),
    ensures
        lines(line + seq!['\n'] + rest) == seq![strip_cr(line)] + lines(rest),
        !line.contains('\r') ==> strip_cr(line) == line,
{
    let s = line + seq!['\n'] + rest;
    let n = line.len() as int;
    assert forall|j: int| 0 <= j < n implies #[trigger] s[j] != '\n' by {
        assert(s[j] == line[j]);
        assert(line.contains(line[j]));
    }
    lemma_find_char(s, '\n', n);
    assert(s.take(n) =~= line);
    assert(s.skip(n + 1) =~= rest);
    if line.len() > 0 {
        assert(line.contains(line.last()));
    }
}

/// A framed line behind text that is empty or ends with a line feed is one line
/// more.
pub proof fn lemma_line_appended(body: Seq<char>, line: Seq<char>)
    requires
        body.len() == 0 || body.last() == '\n',
        !line.contains('\n'),
    ensures
        lines(body + line.push('\n')) == lines(body).push(strip_cr(line)),
        !line.contains('\r') ==> strip_cr(line) == line,
    decreases body.len(),
{
    let last = strip_cr(line);
    if body.len() == 0 {
        assert(body + line.push('\n') =~= line + seq!['\n'] + Seq::<char>::empty());
        lemma_first_line(line, Seq::empty());
        assert(lines(body).push(last) =~= seq![last]);
        assert(seq![last] + lines(Seq::<char>::empty()) =~= seq![last]);
    } else {
        let whole = body + line.push('\n');
        lemma_find_from(body, seq!['\n'], 0);
        let n = body.len() - 1;
        assert(body.subrange(n, n + 1) =~= seq!['\n']);
        assert(occurs_at(body, seq!['\n'], n));
        let i = find_from(body, seq!['\n'], 0)->0;
        assert(body[i] == body.subrange(i, i + 1)[0]);
        assert forall|j: int| 0 <= j < i implies #[trigger] whole[j] != '\n' by {
            assert(body[j] == whole[j]);
            if body[j] == '\n' {
                assert(body.subrange(j, j + 1) =~= seq!['\n']);
                assert(occurs_at(body, seq!['\n'], j));
            }
        }
        lemma_find_char(whole, '\n', i);
        let rest = body.skip(i + 1);
        assert(whole.take(i) =~= body.take(i));
        assert(whole.skip(i + 1) =~= rest + line.push('\n'));
        if rest.len() > 0 {
            assert(rest.last() == body.last());
        }
        lemma_line_appended(rest, line);
        assert((seq![strip_cr(body.take(i))] + lines(rest)).push(last) =~= seq![
            strip_cr(body.take(i)),
        ] + lines(rest).push(last));
    }
}

/// No line of a text holds a line feed.
pub proof fn lemma_lines_hold_no_feed(s: Seq<char>)
    ensures
        forall|i: int| 0 <= i < lines(s).len() ==> !(#[trigger] lines(s)[i]).contains('\n'),
    decreases s.len(),
{
    if s.len() > 0 {
        lemma_find_from(s, seq!['\n'], 0);
        match find_from(s, seq!['\n'], 0) {
            Some(n) => {
                let first = strip_cr(s.take(n));
                assert forall|j: int| 0 <= j < first.len() implies first[j] != '\n' by {
                    if first[j] == '\n' {
                        assert(s.subrange(j, j + 1) =~= seq!['\n']);
                        assert(occurs_at(s, seq!['\n'], j));
                    }
                }
                lemma_lines_hold_no_feed(s.skip(n + 1));
                assert forall|i: int| 0 <= i < lines(s).len() implies !(
                #[trigger] lines(s)[i]).contains('\n') by {
                    if i > 0 {
                        assert(lines(s)[i] == lines(s.skip(n + 1))[i - 1]);
                    }
                }
            },
            None => {
                assert forall|j: int| 0 <= j < s.len() implies s[j] != '\n' by {
                    if s[j] == '\n' {
                        assert(s.subrange(j, j + 1) =~= seq!['\n']);
                        assert(occurs_at(s, seq!['\n'], j));
                    }
                }
                assert(lines(s) =~= seq![s]);
            },
        }
    }
}

/// What stands behind the last line feed is a line too.
pub proof fn lemma_torn_line(body: Seq<char>, torn: Seq<char>)
    requires
        body.len() == 0 || body.last() == '\n',
        !torn.contains('\n'),
        torn.len() > 0,
    ensures
        lines(body + torn) == lines(body).push(torn),
    decreases body.len(),
{
    if body.len() == 0 {
        assert(body + torn =~= torn);
        lemma_find_no_char(torn, '\n');
        assert(lines(body).push(torn) =~= seq![torn]);
    } else {
        let whole = body + torn;
        let nl = seq!['\n'];
        lemma_find_from(body, nl, 0);
        let n = body.len() - 1;
        assert(body.subrange(n, n + 1) =~= nl);
        assert(occurs_at(body, nl, n));
        let i = find_from(body, nl, 0)->0;
        assert(body[i] == body.subrange(i, i + 1)[0]);
        assert forall|j: int| 0 <= j < i implies #[trigger] whole[j] != '\n' by {
            assert(body[j] == whole[j]);
            if body[j] == '\n' {
                assert(body.subrange(j, j + 1) =~= nl);
                assert(occurs_at(body, nl, j));
            }
        }
        lemma_find_char(whole, '\n', i);
        let rest = body.skip(i + 1);
        assert(whole.take(i) =~= body.take(i));
        assert(whole.skip(i + 1) =~= rest + torn);
        if rest.len() > 0 {
            assert(rest.last() == body.last());
        }
        lemma_torn_line(rest, torn);
        let first = strip_cr(body.take(i));
        assert((seq![first] + lines(rest)).push(torn) =~= seq![first] + lines(
            rest,
        ).push(torn));
    }
}

/// A carriage return at the end of a line is white space at its end.
pub proof fn lemma_trim_cr(s: Seq<char>)
    ensures
        trim(strip_cr(s)) == trim(s),
    decreases s.len(),
{
    if s.len() > 0 && s.last() == '\r' {
        let x = s.drop_last();
        if x.len() > 0 && is_space(x[0]) {
            let t = s.skip(1);
            assert(t.last() == '\r');
            assert(t.drop_last() =~= x.skip(1));
            lemma_trim_cr(t);
        } else if x.len() == 0 {
            assert(s.skip(1) =~= Seq::<char>::empty());
            assert(x =~= Seq::<char>::empty());
        } else {
            assert(trim_start(x) == x);
            assert(trim_start(s) == s);
            assert(trim_end(s) == trim_end(x));
        }
    }
}

/// Text that starts with something else than white space is not blank.
pub proof fn lemma_not_blank(s: Seq<char>)
    requires
        s.len() > 0,
        !is_space(s[0]),
    ensures
        trim(s).len() > 0,
{
    lemma_trim_end_keeps(s);
}

proof fn lemma_trim_end_keeps(s: Seq<char>)
    requires
        s.len() > 0,
        !is_space(s[0]),
    ensures
        trim_end(s).len() > 0,
    decreases s.len(),
{
    if is_space(s.last()) {
        lemma_trim_end_keeps(s.drop_last());
    }
}

/// Lines that hold no line ends of their own are read back as they were written.
pub proof fn law_framed_lines_read_back(ls: Seq<Seq<char>>)
    requires
        forall|i: int|
            0 <= i < ls.len() ==> !(#[trigger] ls[i]).contains('\n') && !ls[i].contains('\r'),
    ensures
        lines(framed(ls)) == ls,
    decreases ls.len(),
{
    if ls.len() == 0 {
        assert(ls =~= Seq::empty());
    } else {
        let rest = ls.skip(1);
        lemma_first_line(ls[0], framed(rest));
        assert forall|i: int| 0 <= i < rest.len() implies !(#[trigger] rest[i]).contains('\n')
            && !rest[i].contains('\r') by {
            assert(rest[i] == ls[i + 1]);
        }
        law_framed_lines_read_back(rest);
        assert(seq![ls[0]] + rest =~= ls);
    }
}

/// The lines of `s`.
pub fn lines_of(s: &str) -> (r: Vec<String>)
    ensures
        views(r@) == lines(s@),
{
    let cs = chars_of(s);
    let nl: Vec<char> = vec!['\n'];
    assert(nl@ =~= seq!['\n']);
    let mut out: Vec<String> = Vec::new();
    let mut from: usize = 0;
    assert(cs@.skip(0) =~= cs@);
    assert(views(out@) + lines(cs@) =~= lines(cs@));
    while from < cs.len()
        invariant
            cs@ == s@,
            nl@ == seq!['\n'],
            from <= cs@.len(),
            lines(s@) == views(out@) + lines(s@.skip(from as int)),
        decreases cs@.len() - from,
    {
        let ghost rest = s@.skip(from as int);
        let ghost before = out@;
        proof {
            lemma_find_from(cs@, seq!['\n'], from as int);
            lemma_find_from(rest, seq!['\n'], 0);
            assert forall|j: int| 0 <= j < rest.len() implies (#[trigger] occurs_at(
                rest,
                seq!['\n'],
                j,
            )) == occurs_at(cs@, seq!['\n'], from + j) by {
                assert(rest.subrange(j, j + 1) =~= cs@.subrange(from + j, from + j + 1));
            }
        }
        match find_in(cs.as_slice(), nl.as_slice(), from) {
            None => {
                proof {
                    if find_from(rest, seq!['\n'], 0) is Some {
                        let k = find_from(rest, seq!['\n'], 0)->0;
                        assert(occurs_at(cs@, seq!['\n'], from + k));
                    }
                }
                let line = slice_of(cs.as_slice(), from, cs.len());
                assert(line@ =~= rest);
                out.push(line);
                from = cs.len();
                assert(s@.skip(from as int) =~= Seq::<char>::empty());
                assert(views(out@) =~= views(before) + seq![rest]);
                assert(views(out@) + Seq::<Seq<char>>::empty() =~= views(out@));
            },
            Some(i) => {
                proof {
                    assert(occurs_at(rest, seq!['\n'], i - from));
                    let k = find_from(rest, seq!['\n'], 0)->0;
                    assert(occurs_at(cs@, seq!['\n'], from + k));
                    assert(k == i - from);
                }
                let end: usize = if i > from && cs[i - 1] == '\r' {
                    i - 1
                } else {
                    i
                };
                let line = slice_of(cs.as_slice(), from, end);
                assert(line@ =~= strip_cr(rest.take(i - from)));
                out.push(line);
                assert(rest.skip(i - from + 1) =~= s@.skip(i + 1));
                assert(views(out@) =~= views(before) + seq![line@]);
                assert(views(before) + (seq![line@] + lines(s@.skip(i + 1))) =~= views(out@)
                    + lines(s@.skip(i + 1)));
                from = i + 1;
            },
        }
    }
    assert(s@.skip(from as int) =~= Seq::<char>::empty());
    assert(views(out@) + Seq::<Seq<char>>::empty() =~= views(out@));
    out
}

/// What stands between the `c` in `s`.
pub open spec fn split(s: Seq<char>, c: char) -> Seq<Seq<char>>
    decreases s.len(),
{
    match find_from(s, seq![c], 0) {
        Some(i) => if 0 <= i < s.len() {
            seq![s.take(i)] + split(s.skip(i + 1), c)
        } else {
            seq![s]
        },
        None => seq![s],
    }
}

/// The first `c` in `cs` from `from` on.
pub fn find_char(cs: &[char], c: char, from: usize) -> (r: Option<usize>)
    requires
        from <= cs@.len(),
    ensures
        match r {
            Some(i) => from <= i < cs@.len() && find_from(
                cs@.skip(from as int),
                seq![c],
                0,
            ) == Some(i - from),
            None => find_from(cs@.skip(from as int), seq![c], 0) is None,
        },
{
    let ghost rest = cs@.skip(from as int);
    let mut i: usize = from;
    while i < cs.len()
        invariant
            from <= i <= cs@.len(),
            rest == cs@.skip(from as int),
            forall|j: int| 0 <= j < i - from ==> #[trigger] rest[j] != c,
        decreases cs@.len() - i,
    {
        if cs[i] == c {
            proof {
                assert(rest[i - from] == c);
                lemma_find_char(rest, c, i - from);
            }
            return Some(i);
        }
        assert(rest[i - from] == cs@[i as int]);
        i += 1;
    }
    proof {
        assert(!rest.contains(c));
        lemma_find_no_char(rest, c);
    }
    None
}

/// What stands between the `c` in `s`.
pub fn split_of(s: &str, c: char) -> (r: Vec<String>)
    ensures
        views(r@) == split(s@, c),
{
    let cs = chars_of(s);
    let room: usize = cs.len();
    let mut out: Vec<String> = Vec::new();
    let mut from: usize = 0;
    assert(cs@.skip(0) =~= cs@);
    assert(views(out@) + split(s@, c) =~= split(s@, c));
    loop
        invariant
            from <= cs@.len(),
            room == cs@.len(),
            cs@ == s@,
            split(s@, c) == views(out@) + split(s@.skip(from as int), c),
        decreases cs@.len() - from,
    {
        let ghost rest = s@.skip(from as int);
        let ghost before = out@;
        match find_char(cs.as_slice(), c, from) {
            None => {
                let part = slice_of(cs.as_slice(), from, cs.len());
                assert(part@ =~= rest);
                out.push(part);
                assert(views(out@) =~= views(before) + seq![rest]);
                return out;
            },
            Some(i) => {
                let part = slice_of(cs.as_slice(), from, i);
                assert(part@ =~= rest.take(i - from));
                assert(rest.skip(i - from + 1) =~= s@.skip(i + 1));
                out.push(part);
                assert(views(out@) =~= views(before) + seq![part@]);
                assert(views(before) + (seq![part@] + split(s@.skip(i + 1), c)) =~= views(out@)
                    + split(s@.skip(i + 1), c));
                from = i + 1;
            },
        }
    }
}

/// What stands before and behind the first `c` in `s`.
pub open spec fn split_once(s: Seq<char>, c: char) -> Option<(Seq<char>, Seq<char>)> {
    match find_from(s, seq![c], 0) {
        Some(i) => Some((s.take(i), s.skip(i + 1))),
        None => None,
    }
}

/// What stands before and behind the first `c` in `s`.
pub fn split_once_of(s: &str, c: char) -> (r: Option<(String, String)>)
    ensures
        match r {
            Some((a, b)) => split_once(s@, c) == Some((a@, b@)),
            None => split_once(s@, c) is None,
        },
{
    let cs = chars_of(s);
    let room: usize = cs.len();
    assert(cs@.skip(0) =~= cs@);
    match find_char(cs.as_slice(), c, 0) {
        None => None,
        Some(i) => {
            let a = slice_of(cs.as_slice(), 0, i);
            let b = slice_of(cs.as_slice(), i + 1, room);
            assert(a@ =~= s@.take(i as int));
            assert(b@ =~= s@.skip(i + 1));
            Some((a, b))
        },
    }
}

/// `s` behind the prefix `p`, where it starts with it.
pub open spec fn strip_prefix(s: Seq<char>, p: Seq<char>) -> Option<Seq<char>> {
    if p.is_prefix_of(s) {
        Some(s.skip(p.len() as int))
    } else {
        None
    }
}

/// `s` behind the prefix `p`, where it starts with it.
pub fn strip_prefix_of(s: &str, p: &str) -> (r: Option<String>)
    ensures
        match r {
            Some(x) => strip_prefix(s@, p@) == Some(x@),
            None => strip_prefix(s@, p@) is None,
        },
{
    if !str_starts_with(s, p) {
        return None;
    }
    let cs = chars_of(s);
    let n = p.unicode_len();
    let r = slice_of(cs.as_slice(), n, cs.len());
    assert(r@ =~= s@.skip(p@.len() as int));
    Some(r)
}

/// The digit for a number below sixteen.
pub open spec fn hex_digit(d: nat) -> char {
    if d < 10 {
        digit(d)
    } else {
        ('a' as int + (d - 10)) as char
    }
}

/// The bytes, each as two digits.
pub open spec fn hex(bytes: Seq<u8>) -> Seq<char>
    decreases bytes.len(),
{
    if bytes.len() == 0 {
        Seq::empty()
    } else {
        hex(bytes.drop_last()).push(hex_digit(bytes.last() as nat / 16)).push(
            hex_digit(bytes.last() as nat % 16),
        )
    }
}

fn hex_char(d: u8) -> (r: char)
    requires
        d < 16,
    ensures
        r == hex_digit(d as nat),
{
    if d < 10 {
        (48u8 + d) as char
    } else {
        (87u8 + d) as char
    }
}

/// The bytes, each as two digits.
pub fn hex_of(bytes: &[u8]) -> (r: String)
    ensures
        r@ == hex(bytes@),
{
    let mut out = String::new();
    let mut i: usize = 0;
    assert(bytes@.take(0) =~= Seq::empty());
    while i < bytes.len()
        invariant
            i <= bytes@.len(),
            out@ == hex(bytes@.take(i as int)),
        decreases bytes@.len() - i,
    {
        assert(bytes@.take(i + 1).drop_last() =~= bytes@.take(i as int));
        out.push(hex_char(bytes[i] / 16));
        out.push(hex_char(bytes[i] % 16));
        i += 1;
    }
    assert(bytes@.take(i as int) =~= bytes@);
    out
}

pub proof fn lemma_concat_first(parts: Seq<Seq<char>>)
    requires
        parts.len() > 0,
    ensures
        concat(parts) == parts[0] + concat(parts.skip(1)),
{
    lemma_concat_append(seq![parts[0]], parts.skip(1));
    lemma_concat_one(parts[0]);
    assert(seq![parts[0]] + parts.skip(1) =~= parts);
}

/// The lines of `s` with their ends.
pub open spec fn pieces(s: Seq<char>) -> Seq<Seq<char>>
    decreases s.len(),
{
    match find_from(s, seq!['\n'], 0) {
        Some(i) => if 0 <= i < s.len() {
            seq![s.take(i + 1)] + pieces(s.skip(i + 1))
        } else {
            seq![s]
        },
        None => if s.len() == 0 {
            Seq::empty()
        } else {
            seq![s]
        },
    }
}

/// All of `parts` put together.
pub open spec fn concat(parts: Seq<Seq<char>>) -> Seq<char>
    decreases parts.len(),
{
    if parts.len() == 0 {
        Seq::empty()
    } else {
        concat(parts.drop_last()) + parts.last()
    }
}

/// What the last of several values adds to what they come to together.
pub proof fn lemma_flat_map_last<A, B>(s: Seq<A>, f: spec_fn(A) -> Seq<B>)
    requires
        s.len() > 0,
    ensures
        s.flat_map(f) == s.drop_last().flat_map(f) + f(s.last()),
{
    s.drop_last().map_values(f).lemma_flatten_push(f(s.last()));
    assert(s.map_values(f) =~= s.drop_last().map_values(f).push(f(s.last())));
}

/// Values that come one behind the other come to what each part comes to.
pub proof fn lemma_flat_map_add<A, B>(a: Seq<A>, b: Seq<A>, f: spec_fn(A) -> Seq<B>)
    ensures
        (a + b).flat_map(f) == a.flat_map(f) + b.flat_map(f),
    decreases b.len(),
{
    if b.len() == 0 {
        assert(a + b =~= a);
        assert(b.map_values(f) =~= Seq::empty());
        assert(a.flat_map(f) + b.flat_map(f) =~= a.flat_map(f));
    } else {
        lemma_flat_map_add(a, b.drop_last(), f);
        lemma_flat_map_last(b, f);
        lemma_flat_map_last(a + b, f);
        assert((a + b).drop_last() =~= a + b.drop_last());
        assert(a.flat_map(f) + b.drop_last().flat_map(f) + f(b.last()) =~= a.flat_map(f) + (
        b.drop_last().flat_map(f) + f(b.last())));
    }
}

pub proof fn lemma_concat_append(a: Seq<Seq<char>>, b: Seq<Seq<char>>)
    ensures
        concat(a + b) == concat(a) + concat(b),
    decreases b.len(),
{
    if b.len() == 0 {
        assert(a + b =~= a);
        assert(concat(a) + Seq::<char>::empty() =~= concat(a));
    } else {
        lemma_concat_append(a, b.drop_last());
        assert((a + b).drop_last() =~= a + b.drop_last());
        assert(concat(a) + concat(b.drop_last()) + b.last() =~= concat(a) + (concat(
            b.drop_last(),
        ) + b.last()));
    }
}

/// The lines with their ends are the text.
pub proof fn lemma_pieces_concat(s: Seq<char>)
    ensures
        concat(pieces(s)) == s,
    decreases s.len(),
{
    lemma_find_from(s, seq!['\n'], 0);
    match find_from(s, seq!['\n'], 0) {
        Some(i) => {
            lemma_pieces_concat(s.skip(i + 1));
            lemma_concat_append(seq![s.take(i + 1)], pieces(s.skip(i + 1)));
            lemma_concat_one(s.take(i + 1));
            assert(s.take(i + 1) + s.skip(i + 1) =~= s);
        },
        None => {
            if s.len() == 0 {
                assert(s =~= Seq::empty());
            } else {
                lemma_concat_one(s);
            }
        },
    }
}

pub proof fn lemma_concat_one(s: Seq<char>)
    ensures
        concat(seq![s]) == s,
{
    assert(seq![s].drop_last() =~= Seq::empty());
    assert(concat(Seq::empty()) =~= Seq::empty());
    assert(Seq::<char>::empty() + s =~= s);
}

/// The lines of `s` with their ends.
pub fn pieces_of(s: &str) -> (r: Vec<String>)
    ensures
        views(r@) == pieces(s@),
{
    let cs = chars_of(s);
    let room: usize = cs.len();
    let mut out: Vec<String> = Vec::new();
    let mut from: usize = 0;
    assert(cs@.skip(0) =~= cs@);
    assert(views(out@) + pieces(s@) =~= pieces(s@));
    loop
        invariant
            from <= cs@.len(),
            room == cs@.len(),
            cs@ == s@,
            pieces(s@) == views(out@) + pieces(s@.skip(from as int)),
        decreases cs@.len() - from,
    {
        let ghost rest = s@.skip(from as int);
        let ghost before = out@;
        match find_char(cs.as_slice(), '\n', from) {
            None => {
                if from == cs.len() {
                    assert(views(out@) + Seq::<Seq<char>>::empty() =~= views(out@));
                    return out;
                }
                let part = slice_of(cs.as_slice(), from, cs.len());
                assert(part@ =~= rest);
                out.push(part);
                assert(views(out@) =~= views(before) + seq![rest]);
                return out;
            },
            Some(i) => {
                let part = slice_of(cs.as_slice(), from, i + 1);
                assert(part@ =~= rest.take(i - from + 1));
                assert(rest.skip(i - from + 1) =~= s@.skip(i + 1));
                out.push(part);
                assert(views(out@) =~= views(before) + seq![part@]);
                assert(views(before) + (seq![part@] + pieces(s@.skip(i + 1))) =~= views(out@)
                    + pieces(s@.skip(i + 1)));
                from = i + 1;
            },
        }
    }
}

/// The strings `parts` with `sep` between each two.
pub open spec fn join(parts: Seq<Seq<char>>, sep: Seq<char>) -> Seq<char>
    decreases parts.len(),
{
    if parts.len() == 0 {
        Seq::empty()
    } else if parts.len() == 1 {
        parts[0]
    } else {
        join(parts.drop_last(), sep) + sep + parts.last()
    }
}

/// The strings `parts` with `sep` between each two.
pub fn join_strings(parts: &Vec<String>, sep: &str) -> (r: String)
    ensures
        r@ == join(views(parts@), sep@),
{
    let mut out = String::new();
    let mut i: usize = 0;
    assert(views(parts@).take(0) =~= Seq::empty());
    while i < parts.len()
        invariant
            i <= parts@.len(),
            out@ == join(views(parts@).take(i as int), sep@),
        decreases parts@.len() - i,
    {
        let ghost all = views(parts@).take(i + 1);
        assert(all.drop_last() =~= views(parts@).take(i as int));
        if i > 0 {
            out.push_str(sep);
            out.push_str(parts[i].as_str());
        } else {
            out.push_str(parts[i].as_str());
            assert(out@ =~= parts@[0]@);
        }
        i += 1;
    }
    assert(views(parts@).take(i as int) =~= views(parts@));
    out
}

/// `parts` in the order of strings.
pub open spec fn is_sorted(parts: Seq<Seq<char>>) -> bool {
    forall|i: int, j: int|
        0 <= i < j < parts.len() ==> !lex_lt(#[trigger] parts[j], #[trigger] parts[i])
}

/// `sort_unstable` on strings leaves the same strings in their order, which for
/// strings is that of the code points.
#[verifier::external_body]
pub(crate) fn sort_strings(v: &mut Vec<String>)
    ensures
        is_sorted(views(final(v)@)),
        views(final(v)@).to_multiset() == views(old(v)@).to_multiset(),
{
    v.sort_unstable();
}

/// The text that `String::from_utf8_lossy` makes of `bytes`: what is not UTF-8
/// becomes replacement characters.
pub uninterp spec fn utf8_lossy(bytes: Seq<u8>) -> Seq<char>;

/// `String::from_utf8_lossy` keeps what is UTF-8 as it is.
#[verifier::external_body]
pub(crate) fn lossy(bytes: &[u8]) -> (r: String)
    ensures
        r@ == utf8_lossy(bytes@),
        vstd::utf8::valid_utf8(bytes@) ==> r@ == vstd::utf8::decode_utf8(bytes@),
{
    String::from_utf8_lossy(bytes).into_owned()
}

/// Whether Unicode calls `c` alphabetic or numeric.
pub uninterp spec fn alphanumeric(c: char) -> bool;

/// `char::is_alphanumeric`; among ASCII characters it is the letters and digits.
#[verifier::external_body]
pub(crate) fn is_alphanumeric(c: char) -> (r: bool)
    ensures
        r == alphanumeric(c),
        (c as u32) < 0x80 ==> r == ('a' <= c <= 'z' || 'A' <= c <= 'Z' || '0' <= c <= '9'),
{
    c.is_alphanumeric()
}

/// `s` in lower case, as Unicode maps it.
pub uninterp spec fn lowercase(s: Seq<char>) -> Seq<char>;

/// `c` in lower case, where it is an ASCII letter.
pub open spec fn ascii_lower(c: char) -> char {
    if 'A' <= c <= 'Z' {
        (c as u32 + 32) as char
    } else {
        c
    }
}

/// `s` with its ASCII letters in lower case.
pub open spec fn ascii_lowered(s: Seq<char>) -> Seq<char> {
    Seq::new(s.len(), |i: int| ascii_lower(s[i]))
}

/// The characters with ASCII letters in lower case.
pub fn ascii_lower_chars(cs: &Vec<char>) -> (r: Vec<char>)
    ensures
        r@ == ascii_lowered(cs@),
{
    let mut out: Vec<char> = Vec::new();
    let mut i: usize = 0;
    while i < cs.len()
        invariant
            i <= cs@.len(),
            out@.len() == i,
            forall|j: int| 0 <= j < i ==> (#[trigger] out@[j]) == ascii_lower(cs@[j]),
        decreases cs@.len() - i,
    {
        let c = cs[i];
        let l = if 'A' <= c && c <= 'Z' {
            ((c as u32 + 32) as u8) as char
        } else {
            c
        };
        out.push(l);
        i += 1;
    }
    assert(out@ =~= ascii_lowered(cs@));
    out
}

/// `s` with its ASCII letters in lower case.
pub fn ascii_lower_of(s: &str) -> (r: String)
    ensures
        r@ == ascii_lowered(s@),
{
    let cs = chars_of(s);
    let low = ascii_lower_chars(&cs);
    string_of(low.as_slice())
}

/// `s` holds ASCII characters only.
pub open spec fn is_ascii(s: Seq<char>) -> bool {
    forall|i: int| 0 <= i < s.len() ==> (#[trigger] s[i] as u32) < 0x80
}

/// `str::to_lowercase`; on ASCII text it changes the letters and nothing else.
#[verifier::external_body]
pub(crate) fn to_lowercase(s: &str) -> (r: String)
    ensures
        r@ == lowercase(s@),
        is_ascii(s@) ==> r@ == ascii_lowered(s@),
{
    s.to_lowercase()
}

/// How many characters `s` starts with that are no white space.
pub open spec fn word_len(s: Seq<char>) -> int
    decreases s.len(),
{
    if s.len() == 0 || is_space(s[0]) {
        0
    } else {
        1 + word_len(s.skip(1))
    }
}

/// The words of `s`: what stands between white space.
pub open spec fn words(s: Seq<char>) -> Seq<Seq<char>>
    decreases s.len(),
{
    let t = trim_start(s);
    let n = word_len(t);
    if 0 < n <= t.len() <= s.len() {
        seq![t.take(n)] + words(t.skip(n))
    } else {
        Seq::empty()
    }
}

/// `s` with every run of white space made one space, and none at the ends.
pub open spec fn collapsed(s: Seq<char>) -> Seq<char> {
    join(words(s), seq![' '])
}

pub proof fn lemma_trim_start_len(s: Seq<char>)
    ensures
        trim_start(s).len() <= s.len(),
        trim_start(s).len() > 0 ==> !is_space(trim_start(s)[0]),
    decreases s.len(),
{
    if s.len() > 0 && is_space(s[0]) {
        lemma_trim_start_len(s.skip(1));
    }
}

pub proof fn lemma_word_len(s: Seq<char>)
    ensures
        0 <= word_len(s) <= s.len(),
        s.len() > 0 && !is_space(s[0]) ==> word_len(s) > 0,
    decreases s.len(),
{
    if s.len() > 0 && !is_space(s[0]) {
        lemma_word_len(s.skip(1));
    }
}

/// A word: text without white space.
pub open spec fn is_word(w: Seq<char>) -> bool {
    w.len() > 0 && forall|k: int| 0 <= k < w.len() ==> !is_space(#[trigger] w[k])
}

/// White space before a text adds no word.
proof fn lemma_words_after_space(s: Seq<char>)
    requires
        s.len() > 0,
        is_space(s[0]),
    ensures
        words(s) == words(s.skip(1)),
{
    lemma_trim_start_len(s.skip(1));
}

proof fn lemma_word_len_of(w: Seq<char>, rest: Seq<char>)
    requires
        forall|k: int| 0 <= k < w.len() ==> !is_space(#[trigger] w[k]),
        rest.len() > 0 ==> is_space(rest[0]),
    ensures
        word_len(w + rest) == w.len(),
    decreases w.len(),
{
    if w.len() == 0 {
        assert(w + rest =~= rest);
    } else {
        assert(!is_space(w[0]));
        assert((w + rest)[0] == w[0]);
        assert((w + rest).skip(1) =~= w.skip(1) + rest);
        assert forall|k: int| 0 <= k < w.skip(1).len() implies !is_space(
            #[trigger] w.skip(1)[k],
        ) by {
            assert(w.skip(1)[k] == w[k + 1]);
        }
        lemma_word_len_of(w.skip(1), rest);
    }
}

/// A word in front of white space is the first word.
proof fn lemma_words_of_first(w: Seq<char>, rest: Seq<char>)
    requires
        is_word(w),
        rest.len() > 0 ==> is_space(rest[0]),
    ensures
        words(w + rest) == seq![w] + words(rest),
{
    lemma_word_len_of(w, rest);
    assert(!is_space(w[0]));
    assert((w + rest)[0] == w[0]);
    assert((w + rest).take(w.len() as int) =~= w);
    assert((w + rest).skip(w.len() as int) =~= rest);
}

/// The first word of a text that does not start with white space.
proof fn lemma_first_word(s: Seq<char>)
    requires
        s.len() > 0,
        !is_space(s[0]),
    ensures
        0 < word_len(s) <= s.len(),
        is_word(s.take(word_len(s))),
        word_len(s) < s.len() ==> is_space(s[word_len(s)]),
    decreases s.len(),
{
    let t = s.skip(1);
    if t.len() > 0 && !is_space(t[0]) {
        lemma_first_word(t);
        let n = word_len(t);
        assert forall|k: int| 0 <= k < n + 1 implies !is_space(#[trigger] s.take(n + 1)[k]) by {
            if k > 0 {
                assert(t.take(n)[k - 1] == s[k]);
            }
        }
    } else {
        assert(word_len(t) == 0);
        assert forall|k: int| 0 <= k < 1 implies !is_space(#[trigger] s.take(1)[k]) by {}
    }
}

/// The words of a text are words.
pub proof fn lemma_words_are_words(s: Seq<char>)
    ensures
        forall|i: int| 0 <= i < words(s).len() ==> is_word(#[trigger] words(s)[i]),
    decreases s.len(),
{
    lemma_trim_start_len(s);
    let t = trim_start(s);
    if t.len() > 0 {
        lemma_first_word(t);
        let n = word_len(t);
        lemma_words_are_words(t.skip(n));
        let rest = words(t.skip(n));
        assert(words(s) == seq![t.take(n)] + rest);
        assert forall|i: int| 0 <= i < words(s).len() implies is_word(#[trigger] words(s)[i]) by {
            if i > 0 {
                assert(words(s)[i] == rest[i - 1]);
            }
        }
    }
}

/// The words of two texts with white space between them are those of both.
pub proof fn lemma_words_split(a: Seq<char>, c: char, b: Seq<char>)
    requires
        is_space(c),
    ensures
        words(a + seq![c] + b) == words(a) + words(b),
    decreases a.len(),
{
    let s = a + seq![c] + b;
    if a.len() == 0 {
        assert(s[0] == c);
        lemma_words_after_space(s);
        assert(s.skip(1) =~= b);
        assert(words(a) =~= Seq::empty());
        assert(words(a) + words(b) =~= words(b));
    } else if is_space(a[0]) {
        assert(s[0] == a[0]);
        lemma_words_after_space(s);
        lemma_words_after_space(a);
        assert(s.skip(1) =~= a.skip(1) + seq![c] + b);
        lemma_words_split(a.skip(1), c, b);
    } else {
        lemma_first_word(a);
        let n = word_len(a);
        let w = a.take(n);
        let rest = a.skip(n);
        let tail = rest + seq![c] + b;
        if rest.len() > 0 {
            assert(rest[0] == a[n]);
            assert(tail[0] == rest[0]);
        } else {
            assert(tail[0] == c);
        }
        lemma_words_of_first(w, rest);
        lemma_words_of_first(w, tail);
        assert(w + rest =~= a);
        assert(w + tail =~= s);
        lemma_words_split(rest, c, b);
        assert(seq![w] + (words(rest) + words(b)) =~= seq![w] + words(rest) + words(b));
    }
}

/// White space at the end of a text adds no word.
pub proof fn lemma_words_before_space(s: Seq<char>)
    requires
        s.len() > 0,
        is_space(s.last()),
    ensures
        words(s) == words(s.drop_last()),
{
    lemma_words_split(s.drop_last(), s.last(), Seq::empty());
    assert(s.drop_last() + seq![s.last()] + Seq::<char>::empty() =~= s);
    assert(words(Seq::<char>::empty()) =~= Seq::empty());
    assert(words(s.drop_last()) + Seq::<Seq<char>>::empty() =~= words(s.drop_last()));
}

proof fn lemma_words_trim_start(s: Seq<char>)
    ensures
        words(trim_start(s)) == words(s),
    decreases s.len(),
{
    if s.len() > 0 && is_space(s[0]) {
        lemma_words_after_space(s);
        lemma_words_trim_start(s.skip(1));
    }
}

proof fn lemma_words_trim_end(s: Seq<char>)
    ensures
        words(trim_end(s)) == words(s),
    decreases s.len(),
{
    if s.len() > 0 && is_space(s.last()) {
        lemma_words_before_space(s);
        lemma_words_trim_end(s.drop_last());
    }
}

/// Trimming a text leaves its words.
pub proof fn lemma_words_trim(s: Seq<char>)
    ensures
        words(trim(s)) == words(s),
{
    lemma_words_trim_start(s);
    lemma_words_trim_end(trim_start(s));
}

/// Words joined by spaces are read back.
pub proof fn lemma_words_join(ws: Seq<Seq<char>>)
    requires
        forall|i: int| 0 <= i < ws.len() ==> is_word(#[trigger] ws[i]),
    ensures
        words(join(ws, seq![' '])) == ws,
    decreases ws.len(),
{
    if ws.len() == 0 {
        assert(words(Seq::<char>::empty()) =~= ws);
    } else {
        let last = ws.last();
        assert(is_word(ws[ws.len() - 1]));
        lemma_words_of_first(last, Seq::empty());
        assert(last + Seq::<char>::empty() =~= last);
        assert(words(Seq::<char>::empty()) =~= Seq::empty());
        assert(words(last) =~= seq![last]);
        if ws.len() == 1 {
            assert(ws =~= seq![last]);
        } else {
            let front = ws.drop_last();
            assert forall|i: int| 0 <= i < front.len() implies is_word(#[trigger] front[i]) by {
                assert(front[i] == ws[i]);
            }
            lemma_words_join(front);
            lemma_words_split(join(front, seq![' ']), ' ', last);
            assert(front + seq![last] =~= ws);
        }
    }
}

/// A collapsed text has the words of the text, and nothing is left to collapse.
pub proof fn lemma_collapsed_words(s: Seq<char>)
    ensures
        words(collapsed(s)) == words(s),
        collapsed(collapsed(s)) == collapsed(s),
{
    lemma_words_are_words(s);
    lemma_words_join(words(s));
}

/// Text with single spaces between its words and none at its ends.
pub open spec fn is_collapsed(t: Seq<char>) -> bool {
    &&& t.len() > 0 ==> !is_space(t[0]) && !is_space(t.last())
    &&& forall|k: int| 0 <= k < t.len() && is_space(#[trigger] t[k]) ==> t[k] == ' '
    &&& forall|k: int|
        0 <= k < t.len() - 1 && #[trigger] t[k] == ' ' ==> !is_space(t[k + 1])
}

/// Words joined by spaces have single spaces between them and none at the ends.
proof fn lemma_join_is_collapsed(ws: Seq<Seq<char>>)
    requires
        forall|i: int| 0 <= i < ws.len() ==> is_word(#[trigger] ws[i]),
    ensures
        is_collapsed(join(ws, seq![' '])),
        join(ws, seq![' ']).len() == 0 <==> ws.len() == 0,
    decreases ws.len(),
{
    if ws.len() > 0 {
        let last = ws.last();
        assert(is_word(ws[ws.len() - 1]));
        if ws.len() == 1 {
            assert(ws[0] == last);
            assert(!is_space(last[0]) && !is_space(last[last.len() - 1]));
        } else {
            let front = ws.drop_last();
            assert forall|i: int| 0 <= i < front.len() implies is_word(#[trigger] front[i]) by {
                assert(front[i] == ws[i]);
            }
            lemma_join_is_collapsed(front);
            let a = join(front, seq![' ']);
            let t = join(ws, seq![' ']);
            assert(t == a + seq![' '] + last);
            let n = a.len() as int;
            assert(!is_space(last[0]) && !is_space(last[last.len() - 1]));
            assert(t[0] == a[0] && t.last() == last.last());
            assert forall|k: int| 0 <= k < t.len() && is_space(#[trigger] t[k]) implies t[k]
                == ' ' by {
                if k < n {
                    assert(t[k] == a[k]);
                } else if k > n {
                    assert(t[k] == last[k - n - 1]);
                }
            }
            assert forall|k: int| 0 <= k < t.len() - 1 && #[trigger] t[k] == ' ' implies !is_space(
                t[k + 1],
            ) by {
                if k < n - 1 {
                    assert(t[k] == a[k] && t[k + 1] == a[k + 1]);
                } else if k == n - 1 {
                    assert(t[k] == a.last());
                } else if k == n {
                    assert(t[k + 1] == last[0]);
                } else {
                    assert(t[k] == last[k - n - 1]);
                }
            }
        }
    }
}

/// A collapsed text is empty exactly where the text has no words, and has single
/// spaces otherwise.
pub proof fn lemma_collapsed(s: Seq<char>)
    ensures
        is_collapsed(collapsed(s)),
        collapsed(s).len() == 0 <==> words(s).len() == 0,
{
    lemma_words_are_words(s);
    lemma_join_is_collapsed(words(s));
}

/// The words of several texts, one behind the other.
pub open spec fn words_in(ls: Seq<Seq<char>>) -> Seq<Seq<char>>
    decreases ls.len(),
{
    if ls.len() == 0 {
        Seq::empty()
    } else {
        words_in(ls.drop_last()) + words(ls.last())
    }
}

proof fn lemma_words_in_first(ls: Seq<Seq<char>>)
    requires
        ls.len() > 0,
    ensures
        words_in(ls) == words(ls[0]) + words_in(ls.skip(1)),
    decreases ls.len(),
{
    if ls.len() == 1 {
        assert(ls.drop_last() =~= Seq::empty());
        assert(ls.skip(1) =~= Seq::empty());
        assert(words_in(ls) =~= words(ls[0]) + words_in(ls.skip(1)));
    } else {
        lemma_words_in_first(ls.drop_last());
        assert(ls.drop_last().skip(1) =~= ls.skip(1).drop_last());
        assert(words_in(ls) =~= words(ls[0]) + words_in(ls.skip(1)));
    }
}

/// The words of a text are those of its lines.
pub proof fn lemma_words_of_lines(s: Seq<char>)
    ensures
        words_in(lines(s)) == words(s),
    decreases s.len(),
{
    if s.len() == 0 {
        assert(words(s) =~= Seq::empty());
    } else {
        lemma_find_from(s, seq!['\n'], 0);
        match find_from(s, seq!['\n'], 0) {
            Some(i) => {
                let line = s.take(i);
                let rest = s.skip(i + 1);
                assert(s.subrange(i, i + 1)[0] == s[i]);
                assert(s =~= line + seq!['\n'] + rest);
                lemma_words_split(line, '\n', rest);
                lemma_words_of_lines(rest);
                let all = lines(s);
                assert(all == seq![strip_cr(line)] + lines(rest));
                lemma_words_in_first(all);
                assert(all.skip(1) =~= lines(rest));
                if line.len() > 0 && line.last() == '\r' {
                    lemma_words_before_space(line);
                }
            },
            None => {
                lemma_words_in_first(seq![s]);
                assert(seq![s].skip(1) =~= Seq::empty());
                assert(words(s) + Seq::<Seq<char>>::empty() =~= words(s));
            },
        }
    }
}

/// The words of framed lines are those of the lines.
pub proof fn lemma_words_of_framed(ls: Seq<Seq<char>>)
    ensures
        words(framed(ls)) == words_in(ls),
    decreases ls.len(),
{
    if ls.len() == 0 {
        assert(words(framed(ls)) =~= Seq::empty());
    } else {
        lemma_words_of_framed(ls.skip(1));
        lemma_words_split(ls[0], '\n', framed(ls.skip(1)));
        lemma_words_in_first(ls);
    }
}

/// The words of `s`.
pub fn words_of(s: &str) -> (r: Vec<String>)
    ensures
        views(r@) == words(s@),
{
    let cs = chars_of(s);
    let mut out: Vec<String> = Vec::new();
    let mut i: usize = 0;
    assert(cs@.skip(0) =~= cs@);
    assert(views(out@) + words(s@) =~= words(s@));
    loop
        invariant
            i <= cs@.len(),
            cs@ == s@,
            words(s@) == views(out@) + words(s@.skip(i as int)),
        decreases cs@.len() - i,
    {
        let ghost rest = s@.skip(i as int);
        while i < cs.len() && char_is_space(cs[i])
            invariant
                i <= cs@.len(),
                cs@ == s@,
                trim_start(rest) == trim_start(s@.skip(i as int)),
            decreases cs@.len() - i,
        {
            assert(s@.skip(i as int).skip(1) =~= s@.skip(i + 1));
            i += 1;
        }
        let ghost t = s@.skip(i as int);
        assert(trim_start(rest) == t);
        proof {
            lemma_trim_start_len(rest);
            lemma_word_len(t);
        }
        if i == cs.len() {
            assert(views(out@) + Seq::<Seq<char>>::empty() =~= views(out@));
            return out;
        }
        let start: usize = i;
        assert(t.skip(0) =~= t);
        while i < cs.len() && !char_is_space(cs[i])
            invariant
                start <= i <= cs@.len(),
                cs@ == s@,
                t == s@.skip(start as int),
                word_len(t) == i - start + word_len(s@.skip(i as int)),
            decreases cs@.len() - i,
        {
            assert(s@.skip(i as int).skip(1) =~= s@.skip(i + 1));
            i += 1;
        }
        assert(word_len(t) == i - start);
        let w = slice_of(cs.as_slice(), start, i);
        assert(w@ =~= t.take(i - start));
        assert(t.skip(i - start) =~= s@.skip(i as int));
        let ghost before = out@;
        out.push(w);
        assert(views(out@) =~= views(before) + seq![w@]);
        assert(views(before) + (seq![w@] + words(s@.skip(i as int))) =~= views(out@) + words(
            s@.skip(i as int),
        ));
    }
}

/// `s` with every run of white space made one space, and none at the ends.
pub fn collapse(s: &str) -> (r: String)
    ensures
        r@ == collapsed(s@),
{
    let ws = words_of(s);
    let r = join_strings(&ws, " ");
    proof {
        reveal_strlit(" ");
        assert(" "@ =~= seq![' ']);
    }
    r
}

/// The digits of a number write that number.
pub proof fn lemma_decimal_value(n: nat)
    ensures
        digits_value(decimal(n)) == n,
        decimal(n).len() > 0,
        all_digits(decimal(n)),
    decreases n,
{
    if n < 10 {
        assert(decimal(n).drop_last() =~= Seq::empty());
        assert(digits_value(Seq::<char>::empty()) == 0);
    } else {
        lemma_decimal_value(n / 10);
        assert(decimal(n).drop_last() =~= decimal(n / 10));
        assert(decimal(n).last() == digit(n % 10));
    }
}

/// The digit for a number below ten.
pub open spec fn digit(d: nat) -> char {
    ('0' as int + d) as char
}

/// `n` in decimal.
pub open spec fn decimal(n: nat) -> Seq<char>
    decreases n,
{
    if n < 10 {
        seq![digit(n)]
    } else {
        decimal(n / 10).push(digit(n % 10))
    }
}

/// `n` in decimal.
pub fn decimal_of(n: u64) -> (r: String)
    ensures
        r@ == decimal(n as nat),
    decreases n,
{
    let d = (48u8 + (n % 10) as u8) as char;
    let mut out = if n < 10 {
        String::new()
    } else {
        decimal_of(n / 10)
    };
    out.push(d);
    assert(n < 10 ==> out@ =~= seq![digit(n as nat)]);
    out
}

/// `n` in decimal, with a minus sign where it is negative.
pub open spec fn signed_decimal(n: int) -> Seq<char> {
    if n < 0 {
        seq!['-'] + decimal((-n) as nat)
    } else {
        decimal(n as nat)
    }
}

/// `n` in decimal, with a minus sign where it is negative.
pub fn signed_decimal_of(n: i64) -> (r: String)
    ensures
        r@ == signed_decimal(n as int),
{
    if n >= 0 {
        return decimal_of(n as u64);
    }
    let mut out = String::new();
    out.push('-');
    let m: u64 = if n == i64::MIN {
        9223372036854775808
    } else {
        (-n) as u64
    };
    let d = decimal_of(m);
    assert(out@ =~= seq!['-']);
    out.push_str(d.as_str());
    out
}

/// `s` behind as many spaces as make it `n` characters long.
pub open spec fn right_aligned(s: Seq<char>, n: nat) -> Seq<char>
    decreases n,
{
    if s.len() >= n {
        s
    } else {
        seq![' '] + right_aligned(s, (n - 1) as nat)
    }
}

/// `s` behind as many spaces as make it `n` characters long.
pub fn align_right(s: &str, n: usize) -> (r: String)
    ensures
        r@ == right_aligned(s@, n as nat),
    decreases n,
{
    if s.unicode_len() >= n {
        return s.to_owned();
    }
    let mut out = String::new();
    out.push(' ');
    assert(out@ =~= seq![' ']);
    let rest = align_right(s, n - 1);
    out.push_str(rest.as_str());
    out
}

/// `s` with as many spaces behind it as make it `n` characters long.
pub open spec fn left_aligned(s: Seq<char>, n: nat) -> Seq<char>
    decreases n,
{
    if s.len() >= n {
        s
    } else {
        left_aligned(s, (n - 1) as nat).push(' ')
    }
}

/// `s` with as many spaces behind it as make it `n` characters long.
pub fn align_left(s: &str, n: usize) -> (r: String)
    ensures
        r@ == left_aligned(s@, n as nat),
    decreases n,
{
    if s.unicode_len() >= n {
        return s.to_owned();
    }
    let mut out = align_left(s, n - 1);
    out.push(' ');
    out
}

pub open spec fn is_digit(c: char) -> bool {
    '0' <= c <= '9'
}

/// The number that the digits `s` write.
pub open spec fn digits_value(s: Seq<char>) -> nat
    decreases s.len(),
{
    if s.len() == 0 {
        0
    } else {
        10 * digits_value(s.drop_last()) + (s.last() as int - '0' as int) as nat
    }
}

/// `s` holds digits only.
pub open spec fn all_digits(s: Seq<char>) -> bool {
    forall|i: int| 0 <= i < s.len() ==> is_digit(#[trigger] s[i])
}

/// `s` without a plus sign in front.
pub open spec fn strip_plus(s: Seq<char>) -> Seq<char> {
    if s.len() > 0 && s[0] == '+' {
        s.skip(1)
    } else {
        s
    }
}

/// The number that `s` writes in decimal, with or without a plus sign, where it
/// is at most `max`.
pub open spec fn parsed(s: Seq<char>, max: nat) -> Option<nat> {
    let d = strip_plus(s);
    if d.len() > 0 && all_digits(d) && digits_value(d) <= max {
        Some(digits_value(d))
    } else {
        None
    }
}

proof fn lemma_digits_value_grows(s: Seq<char>, i: int)
    requires
        0 <= i <= s.len(),
        forall|j: int| 0 <= j < s.len() ==> is_digit(#[trigger] s[j]),
    ensures
        digits_value(s.take(i)) <= digits_value(s),
    decreases s.len() - i,
{
    if i < s.len() {
        lemma_digits_value_grows(s, i + 1);
        assert(s.take(i + 1).drop_last() =~= s.take(i));
    } else {
        assert(s.take(i) =~= s);
    }
}

/// The number that `s` writes in decimal, where it is at most `max`.
pub fn parse_decimal(s: &str, max: u64) -> (r: Option<u64>)
    ensures
        match r {
            Some(n) => parsed(s@, max as nat) == Some(n as nat),
            None => parsed(s@, max as nat) is None,
        },
{
    let cs = chars_of(s);
    let start: usize = if cs.len() > 0 && cs[0] == '+' {
        1
    } else {
        0
    };
    let ghost d = s@.skip(start as int);
    assert(start == 0 ==> d =~= s@);
    if start == cs.len() {
        return None;
    }
    let mut n: u64 = 0;
    let mut i: usize = start;
    assert(d.take(0) =~= Seq::empty());
    while i < cs.len()
        invariant
            start <= i <= cs@.len(),
            cs@ == s@,
            d == s@.skip(start as int),
            d == strip_plus(s@),
            n <= max,
            n == digits_value(d.take(i - start)),
            forall|j: int| 0 <= j < i - start ==> is_digit(#[trigger] d[j]),
        decreases cs@.len() - i,
    {
        let c = cs[i];
        assert(d[i - start] == c);
        if !('0' <= c && c <= '9') {
            assert(!is_digit(d[i - start]));
            return None;
        }
        let v: u64 = (c as u32 - '0' as u32) as u64;
        assert(d.take(i - start + 1).drop_last() =~= d.take(i - start));
        assert(digits_value(d.take(i - start + 1)) == 10 * n + v);
        proof {
            if all_digits(d) {
                lemma_digits_value_grows(d, i - start + 1);
            }
        }
        if v > max || n > max / 10 || n * 10 > max - v {
            return None;
        }
        n = n * 10 + v;
        i += 1;
    }
    assert(d.take(i - start) =~= d);
    Some(n)
}

proof fn lemma_trim_start_parts(s: Seq<char>)
    ensures
        exists|a: Seq<char>|
            #![trigger a + trim_start(s)]
            s == a + trim_start(s) && all_spaces(a),
        trim_start(s).len() > 0 ==> !is_space(trim_start(s)[0]),
    decreases s.len(),
{
    if s.len() > 0 && is_space(s[0]) {
        lemma_trim_start_parts(s.skip(1));
        let a = choose|a: Seq<char>|
            #![trigger a + trim_start(s.skip(1))]
            s.skip(1) == a + trim_start(s.skip(1)) && all_spaces(a);
        let more = seq![s[0]] + a;
        assert(s =~= seq![s[0]] + s.skip(1));
        assert(trim_start(s) == trim_start(s.skip(1)));
        assert(more + trim_start(s) =~= seq![s[0]] + (a + trim_start(s)));
    } else {
        assert(s =~= Seq::<char>::empty() + trim_start(s));
    }
}

/// What is trimmed at the end is white space.
pub proof fn lemma_trim_end_parts(s: Seq<char>)
    ensures
        exists|b: Seq<char>|
            #![trigger trim_end(s) + b]
            s == trim_end(s) + b && all_spaces(b),
        trim_end(s).len() > 0 ==> !is_space(trim_end(s).last()),
    decreases s.len(),
{
    if s.len() > 0 && is_space(s.last()) {
        lemma_trim_end_parts(s.drop_last());
        let b = choose|b: Seq<char>|
            #![trigger trim_end(s.drop_last()) + b]
            s.drop_last() == trim_end(s.drop_last()) + b && all_spaces(b);
        let more = b.push(s.last());
        assert(s =~= s.drop_last().push(s.last()));
        assert(trim_end(s) == trim_end(s.drop_last()));
        assert(trim_end(s) + more =~= (trim_end(s) + b).push(s.last()));
    } else {
        assert(s =~= trim_end(s) + Seq::<char>::empty());
    }
}

/// `s` is nothing but white space.
pub open spec fn all_spaces(s: Seq<char>) -> bool {
    forall|i: int| 0 <= i < s.len() ==> is_space(#[trigger] s[i])
}

/// Trimming takes away the white space at both ends and nothing else.
pub proof fn law_trim_takes_only_space(s: Seq<char>)
    ensures
        exists|a: Seq<char>, b: Seq<char>|
            #![trigger a + trim(s) + b]
            s == a + trim(s) + b && all_spaces(a) && all_spaces(b),
        trim(s).len() > 0 ==> !is_space(trim(s)[0]) && !is_space(trim(s).last()),
{
    lemma_trim_start_parts(s);
    let t = trim_start(s);
    let a = choose|a: Seq<char>| #![trigger a + trim_start(s)] s == a + t && all_spaces(a);
    lemma_trim_end_parts(t);
    let b = choose|b: Seq<char>| #![trigger trim_end(t) + b] t == trim_end(t) + b && all_spaces(b);
    assert(s =~= a + trim(s) + b);
    if trim(s).len() > 0 {
        assert(t[0] == trim(s)[0]);
    }
}

/// Where something does not occur, replacing it changes nothing.
pub proof fn law_replacing_nothing(s: Seq<char>, needle: Seq<char>, to: Seq<char>)
    requires
        needle.len() > 0,
        forall|i: int| !#[trigger] occurs_at(s, needle, i),
    ensures
        replace(s, needle, to) == s,
{
    lemma_find_from(s, needle, 0);
    assert(s.skip(0) =~= s);
}

proof fn lemma_replace_char_from(s: Seq<char>, c: char, to: Seq<char>, from: int)
    requires
        0 <= from <= s.len(),
    ensures
        replace_from(s, seq![c], to, from) == s.skip(from).flat_map(
            |x: char|
                if x == c {
                    to
                } else {
                    seq![x]
                },
        ),
    decreases s.len() - from,
{
    let f = |x: char|
        if x == c {
            to
        } else {
            seq![x]
        };
    let needle = seq![c];
    lemma_find_from(s, needle, from);
    match find_from(s, needle, from) {
        Some(i) => {
            assert(s.subrange(i, i + 1)[0] == s[i]);
            assert(s[i] == c);
            lemma_replace_char_from(s, c, to, i + 1);
            let kept = s.subrange(from, i);
            assert forall|k: int| 0 <= k < kept.len() implies #[trigger] kept[k] != c by {
                if kept[k] == c {
                    assert(s.subrange(from + k, from + k + 1) =~= needle);
                    assert(occurs_at(s, needle, from + k));
                }
            }
            lemma_flat_map_same(kept, f);
            assert(s.skip(from) =~= kept + seq![c] + s.skip(i + 1));
            lemma_flat_map_add(kept + seq![c], s.skip(i + 1), f);
            assert((kept + seq![c]).drop_last() =~= kept);
            lemma_flat_map_last(kept + seq![c], f);
        },
        None => {
            let kept = s.skip(from);
            assert forall|k: int| 0 <= k < kept.len() implies #[trigger] kept[k] != c by {
                if kept[k] == c {
                    assert(s.subrange(from + k, from + k + 1) =~= needle);
                    assert(occurs_at(s, needle, from + k));
                }
            }
            lemma_flat_map_same(kept, f);
        },
    }
}

/// A pass that changes no character changes nothing.
pub proof fn lemma_flat_map_same(s: Seq<char>, f: spec_fn(char) -> Seq<char>)
    requires
        forall|k: int| 0 <= k < s.len() ==> f(#[trigger] s[k]) == seq![s[k]],
    ensures
        s.flat_map(f) == s,
    decreases s.len(),
{
    if s.len() > 0 {
        lemma_flat_map_same(s.drop_last(), f);
        lemma_flat_map_last(s, f);
        assert(s.drop_last() + seq![s.last()] =~= s);
    } else {
        assert(s.map_values(f) =~= Seq::empty());
        assert(s =~= Seq::empty());
    }
}

/// To replace a character is to put the new text in each of its places, and to leave
/// every other character where it is.
pub proof fn law_replacing_a_character(s: Seq<char>, c: char, to: Seq<char>)
    ensures
        replace(s, seq![c], to) == s.flat_map(
            |x: char|
                if x == c {
                    to
                } else {
                    seq![x]
                },
        ),
{
    lemma_replace_char_from(s, c, to, 0);
    assert(s.skip(0) =~= s);
}

/// The same, for a pass given by name.
pub proof fn lemma_replacing_by(
    s: Seq<char>,
    c: char,
    to: Seq<char>,
    f: spec_fn(char) -> Seq<char>,
)
    requires
        forall|x: char|
            #[trigger] f(x) == (if x == c {
                to
            } else {
                seq![x]
            }),
    ensures
        replace(s, seq![c], to) == s.flat_map(f),
{
    law_replacing_a_character(s, c, to);
    assert(s.map_values(f) =~= s.map_values(
        |x: char|
            if x == c {
                to
            } else {
                seq![x]
            },
    ));
}

/// Two passes over a sequence are one.
pub proof fn lemma_flat_map_twice<A, B, C>(
    s: Seq<A>,
    f: spec_fn(A) -> Seq<B>,
    g: spec_fn(B) -> Seq<C>,
)
    ensures
        s.flat_map(f).flat_map(g) == s.flat_map(|x: A| f(x).flat_map(g)),
    decreases s.len(),
{
    let h = |x: A| f(x).flat_map(g);
    if s.len() > 0 {
        lemma_flat_map_twice(s.drop_last(), f, g);
        lemma_flat_map_last(s, f);
        lemma_flat_map_last(s, h);
        lemma_flat_map_add(s.drop_last().flat_map(f), f(s.last()), g);
    } else {
        assert(s.map_values(f) =~= Seq::empty());
        assert(s.map_values(h) =~= Seq::empty());
        assert(Seq::<B>::empty().map_values(g) =~= Seq::empty());
    }
}

/// What was split is put together again by joining, and no part holds the separator.
pub proof fn law_split_parts_join(s: Seq<char>, c: char)
    ensures
        join(split(s, c), seq![c]) == s,
        split(s, c).len() > 0,
        forall|i: int| 0 <= i < split(s, c).len() ==> !#[trigger] split(s, c)[i].contains(c),
    decreases s.len(),
{
    lemma_find_from(s, seq![c], 0);
    match find_from(s, seq![c], 0) {
        Some(i) => {
            law_split_parts_join(s.skip(i + 1), c);
            let head = s.take(i);
            let rest = split(s.skip(i + 1), c);
            assert(s.subrange(i, i + 1)[0] == s[i]);
            assert(!head.contains(c)) by {
                if head.contains(c) {
                    let k = choose|k: int| 0 <= k < head.len() && head[k] == c;
                    assert(s.subrange(k, k + 1) =~= seq![c]);
                    assert(occurs_at(s, seq![c], k));
                }
            }
            lemma_join_first(head, rest, seq![c]);
            assert(s =~= head + seq![c] + s.skip(i + 1));
        },
        None => {
            assert(!s.contains(c)) by {
                if s.contains(c) {
                    let k = choose|k: int| 0 <= k < s.len() && s[k] == c;
                    assert(s.subrange(k, k + 1) =~= seq![c]);
                    assert(occurs_at(s, seq![c], k));
                }
            }
        },
    }
}

/// The first of several parts that are joined.
pub proof fn lemma_join_first(head: Seq<char>, rest: Seq<Seq<char>>, sep: Seq<char>)
    requires
        rest.len() > 0,
    ensures
        join(seq![head] + rest, sep) == head + sep + join(rest, sep),
    decreases rest.len(),
{
    let all = seq![head] + rest;
    if rest.len() > 1 {
        lemma_join_first(head, rest.drop_last(), sep);
        assert(all.drop_last() =~= seq![head] + rest.drop_last());
        assert(join(all, sep) =~= head + sep + join(rest, sep));
    } else {
        assert(all.drop_last() =~= seq![head]);
        reveal_with_fuel(join, 2);
    }
}

/// Something occurs behind `a` just where it does without it.
pub proof fn lemma_occurs_behind(a: Seq<char>, b: Seq<char>, needle: Seq<char>, i: int)
    requires
        0 <= i,
    ensures
        occurs_at(a + b, needle, a.len() + i) == occurs_at(b, needle, i),
{
    if i + needle.len() <= b.len() {
        assert((a + b).subrange(a.len() + i, a.len() + i + needle.len()) =~= b.subrange(
            i,
            i + needle.len(),
        ));
    }
}

/// What is found behind `a` is found there without it.
pub proof fn lemma_find_behind(a: Seq<char>, b: Seq<char>, needle: Seq<char>, i: int)
    requires
        0 <= i,
    ensures
        find_from(a + b, needle, a.len() + i) == (match find_from(b, needle, i) {
            Some(k) => Some(a.len() + k),
            None => None,
        }),
    decreases b.len() + 1 - i,
{
    if i + needle.len() <= b.len() {
        lemma_occurs_behind(a, b, needle, i);
        if !occurs_at(b, needle, i) {
            lemma_find_behind(a, b, needle, i + 1);
        }
    }
}

/// The place of a find: where it occurs and does not occur before.
pub proof fn lemma_found_at(hay: Seq<char>, needle: Seq<char>, from: int, i: int)
    requires
        0 <= from <= i,
        occurs_at(hay, needle, i),
        forall|j: int| from <= j < i ==> !#[trigger] occurs_at(hay, needle, j),
    ensures
        find_from(hay, needle, from) == Some(i),
{
    lemma_find_from(hay, needle, from);
}

/// Parts that hold no separator are read back from what they were joined to.
pub proof fn law_joined_parts_split(parts: Seq<Seq<char>>, c: char)
    requires
        parts.len() > 0,
        forall|i: int| 0 <= i < parts.len() ==> !#[trigger] parts[i].contains(c),
    ensures
        split(join(parts, seq![c]), c) == parts,
    decreases parts.len(),
{
    let first = parts[0];
    assert(!first.contains(c));
    if parts.len() > 1 {
        let rest = parts.skip(1);
        assert forall|i: int| 0 <= i < rest.len() implies !#[trigger] rest[i].contains(c) by {
            assert(rest[i] == parts[i + 1]);
        }
        law_joined_parts_split(rest, c);
        assert(parts =~= seq![first] + rest);
        lemma_join_first(first, rest, seq![c]);
        let s = join(parts, seq![c]);
        let n = first.len() as int;
        assert(s =~= first + seq![c] + join(rest, seq![c]));
        assert forall|j: int| 0 <= j < n implies #[trigger] s[j] != c by {
            assert(s[j] == first[j]);
            assert(first.contains(first[j]));
        }
        lemma_find_char(s, c, n);
        assert(s.take(n) =~= first);
        assert(s.skip(n + 1) =~= join(rest, seq![c]));
    } else {
        lemma_find_no_char(first, c);
        assert(parts =~= seq![first]);
    }
}

/// Replacing goes from left to right: the first occurrence gives way, what stands before
/// it is kept, and what stands behind it is replaced in the same way.
pub proof fn law_replacing_goes_left_to_right(
    hay: Seq<char>,
    needle: Seq<char>,
    to: Seq<char>,
    i: int,
)
    requires
        needle.len() > 0,
        occurs_at(hay, needle, i),
        forall|j: int| 0 <= j < i ==> !#[trigger] occurs_at(hay, needle, j),
    ensures
        replace(hay, needle, to) == hay.take(i) + to + replace(
            hay.skip(i + needle.len()),
            needle,
            to,
        ),
        count(hay, needle) == 1 + count(hay.skip(i + needle.len()), needle),
{
    lemma_found_at(hay, needle, 0, i);
    let n = i + needle.len();
    let rest = hay.skip(n);
    assert(hay.subrange(0, i) =~= hay.take(i));
    assert(hay =~= hay.take(n) + rest);
    lemma_replace_behind(hay.take(n), rest, needle, to, 0);
    lemma_count_behind(hay.take(n), rest, needle, 0);
}

proof fn lemma_replace_behind(
    a: Seq<char>,
    b: Seq<char>,
    needle: Seq<char>,
    to: Seq<char>,
    from: int,
)
    requires
        needle.len() > 0,
        0 <= from <= b.len(),
    ensures
        replace_from(a + b, needle, to, a.len() + from) == replace_from(b, needle, to, from),
    decreases b.len() - from,
{
    lemma_find_behind(a, b, needle, from);
    lemma_find_from(b, needle, from);
    match find_from(b, needle, from) {
        Some(i) => {
            lemma_replace_behind(a, b, needle, to, i + needle.len());
            assert((a + b).subrange(a.len() + from, a.len() + i) =~= b.subrange(from, i));
        },
        None => {
            assert((a + b).skip(a.len() + from) =~= b.skip(from));
        },
    }
}

proof fn lemma_count_behind(a: Seq<char>, b: Seq<char>, needle: Seq<char>, from: int)
    requires
        needle.len() > 0,
        0 <= from <= b.len(),
    ensures
        count_from(a + b, needle, a.len() + from) == count_from(b, needle, from),
    decreases b.len() - from,
{
    lemma_find_behind(a, b, needle, from);
    lemma_find_from(b, needle, from);
    if let Some(i) = find_from(b, needle, from) {
        lemma_count_behind(a, b, needle, i + needle.len());
    }
}

/// Nothing is counted exactly where there is nothing to count.
pub proof fn law_none_is_counted(hay: Seq<char>, needle: Seq<char>)
    requires
        needle.len() > 0,
    ensures
        count(hay, needle) == 0 <==> forall|i: int| !#[trigger] occurs_at(hay, needle, i),
{
    lemma_find_from(hay, needle, 0);
}

/// What is aligned is kept, with spaces on the other side up to the width.
pub proof fn law_aligning_adds_only_spaces(s: Seq<char>, n: nat)
    ensures
        left_aligned(s, n).take(s.len() as int) == s,
        right_aligned(s, n).skip(right_aligned(s, n).len() - s.len()) == s,
        left_aligned(s, n).len() == right_aligned(s, n).len() == (if s.len() >= n {
            s.len()
        } else {
            n
        }),
        forall|i: int| s.len() <= i < left_aligned(s, n).len() ==> #[trigger] left_aligned(s, n)[i]
            == ' ',
        forall|i: int|
            0 <= i < right_aligned(s, n).len() - s.len() ==> #[trigger] right_aligned(s, n)[i]
                == ' ',
    decreases n,
{
    let l = left_aligned(s, n);
    let r = right_aligned(s, n);
    if s.len() < n {
        let m = (n - 1) as nat;
        law_aligning_adds_only_spaces(s, m);
        assert(l.take(s.len() as int) =~= left_aligned(s, m).take(s.len() as int));
        let k = right_aligned(s, m).len() - s.len();
        assert(r.skip(r.len() - s.len()) =~= right_aligned(s, m).skip(k));
        assert forall|i: int| 0 <= i < r.len() - s.len() implies #[trigger] r[i] == ' ' by {
            if i > 0 {
                assert(r[i] == right_aligned(s, m)[i - 1]);
            }
        }
        assert forall|i: int| s.len() <= i < l.len() implies #[trigger] l[i] == ' ' by {
            if i < l.len() - 1 {
                assert(l[i] == left_aligned(s, m)[i]);
            }
        }
    } else {
        assert(l.take(s.len() as int) =~= s);
        assert(r.skip(0) =~= s);
    }
}

/// A number that was written is read back, as long as it is in bounds.
pub proof fn law_numbers_are_read_back(n: nat, max: nat)
    ensures
        parsed(decimal(n), max) == (if n <= max {
            Some(n)
        } else {
            None
        }),
{
    lemma_decimal_value(n);
    assert(is_digit(decimal(n)[0]));
    assert(strip_plus(decimal(n)) == decimal(n));
}

/// What has a separator is split at the first one.
pub proof fn law_split_at_the_first(a: Seq<char>, c: char, b: Seq<char>)
    requires
        !a.contains(c),
    ensures
        split_once(a + seq![c] + b, c) == Some((a, b)),
{
    let s = a + seq![c] + b;
    let n = a.len() as int;
    assert forall|j: int| 0 <= j < n implies #[trigger] s[j] != c by {
        assert(s[j] == a[j]);
        assert(a.contains(a[j]));
    }
    assert(s[n] == c);
    lemma_find_char(s, c, n);
    assert(s.take(n) =~= a);
    assert(s.skip(n + 1) =~= b);
}

/// Every part of what was joined stands in it.
pub proof fn law_joined_parts_stand(parts: Seq<Seq<char>>, sep: Seq<char>, i: int)
    requires
        0 <= i < parts.len(),
    ensures
        exists|a: Seq<char>, b: Seq<char>|
            #![trigger a + parts[i] + b]
            join(parts, sep) == a + parts[i] + b,
    decreases parts.len(),
{
    let none = Seq::<char>::empty();
    if parts.len() == 1 {
        assert(join(parts, sep) =~= none + parts[i] + none);
    } else if i == parts.len() - 1 {
        assert(join(parts, sep) =~= (join(parts.drop_last(), sep) + sep) + parts[i] + none);
    } else {
        let init = parts.drop_last();
        law_joined_parts_stand(init, sep, i);
        let (a, b) = choose|a: Seq<char>, b: Seq<char>|
            #![trigger a + init[i] + b]
            join(init, sep) == a + init[i] + b;
        assert(join(parts, sep) =~= a + parts[i] + (b + sep + parts.last()));
    }
}

/// The lines of a text hold no carriage return where the text holds none.
pub proof fn lemma_lines_hold_no_return(s: Seq<char>)
    requires
        !s.contains('\r'),
    ensures
        forall|i: int| 0 <= i < lines(s).len() ==> !(#[trigger] lines(s)[i]).contains('\r'),
    decreases s.len(),
{
    if s.len() > 0 {
        lemma_find_from(s, seq!['\n'], 0);
        if let Some(n) = find_from(s, seq!['\n'], 0) {
            let first = strip_cr(s.take(n));
            let rest = s.skip(n + 1);
            assert forall|j: int| 0 <= j < first.len() implies first[j] != '\r' by {
                assert(first[j] == s[j]);
                assert(s.contains(s[j]));
            }
            assert forall|j: int| 0 <= j < rest.len() implies rest[j] != '\r' by {
                assert(rest[j] == s[j + n + 1]);
                assert(s.contains(s[j + n + 1]));
            }
            lemma_lines_hold_no_return(rest);
            assert forall|i: int| 0 <= i < lines(s).len() implies !(
            #[trigger] lines(s)[i]).contains('\r') by {
                if i > 0 {
                    assert(lines(s)[i] == lines(rest)[i - 1]);
                }
            }
        } else {
            assert(lines(s) =~= seq![s]);
        }
    }
}

/// To replace one character by another changes it in its places.
pub proof fn lemma_one_for_one(s: Seq<char>, c: char, d: char)
    ensures
        replace(s, seq![c], seq![d]) == s.map_values(
            |x: char|
                if x == c {
                    d
                } else {
                    x
                },
        ),
{
    let f = |x: char|
        if x == c {
            seq![d]
        } else {
            seq![x]
        };
    lemma_replacing_by(s, c, seq![d], f);
    lemma_one_for_one_from(s, c, d);
}

proof fn lemma_one_for_one_from(s: Seq<char>, c: char, d: char)
    ensures
        s.flat_map(
            |x: char|
                if x == c {
                    seq![d]
                } else {
                    seq![x]
                },
        ) == s.map_values(
            |x: char|
                if x == c {
                    d
                } else {
                    x
                },
        ),
    decreases s.len(),
{
    let f = |x: char|
        if x == c {
            seq![d]
        } else {
            seq![x]
        };
    let g = |x: char|
        if x == c {
            d
        } else {
            x
        };
    if s.len() > 0 {
        lemma_one_for_one_from(s.drop_last(), c, d);
        lemma_flat_map_last(s, f);
        assert(s.flat_map(f) =~= s.map_values(g));
    } else {
        assert(s.map_values(f) =~= Seq::empty());
        assert(s.map_values(g) =~= Seq::empty());
    }
}

/// What occurs in one place only gives way there.
pub proof fn law_replacing_once(a: Seq<char>, needle: Seq<char>, b: Seq<char>, to: Seq<char>)
    requires
        needle.len() > 0,
        stands_only_at(a + needle + b, needle, a.len() as int),
    ensures
        replace(a + needle + b, needle, to) == a + to + b,
{
    let s = a + needle + b;
    let n = a.len() as int;
    law_replacing_goes_left_to_right(s, needle, to, n);
    let rest = s.skip(n + needle.len());
    assert(rest =~= b);
    assert(s.take(n) =~= a);
    assert forall|i: int| !#[trigger] occurs_at(rest, needle, i) by {
        if occurs_at(rest, needle, i) {
            assert(s =~= (a + needle) + b);
            lemma_occurs_behind(a + needle, b, needle, i);
        }
    }
    law_replacing_nothing(rest, needle, to);
}

proof fn lemma_trim_start_filter(s: Seq<char>)
    ensures
        trim_start(s).filter(|c: char| !is_space(c)) == s.filter(|c: char| !is_space(c)),
    decreases s.len(),
{
    let p = |c: char| !is_space(c);
    if s.len() > 0 && is_space(s[0]) {
        lemma_trim_start_filter(s.skip(1));
        Seq::filter_distributes_over_add(seq![s[0]], s.skip(1), p);
        assert(s =~= seq![s[0]] + s.skip(1));
        reveal(Seq::filter);
        reveal_with_fuel(Seq::filter, 2);
        assert(seq![s[0]].drop_last() =~= Seq::empty());
        assert(seq![s[0]].filter(p) =~= Seq::empty());
        assert(Seq::<char>::empty() + s.skip(1).filter(p) =~= s.skip(1).filter(p));
    }
}

proof fn lemma_word_filter(t: Seq<char>)
    ensures
        0 <= word_len(t) <= t.len(),
        t.take(word_len(t)).filter(|c: char| !is_space(c)) == t.take(word_len(t)),
    decreases t.len(),
{
    let p = |c: char| !is_space(c);
    lemma_word_len(t);
    reveal(Seq::filter);
    if word_len(t) > 0 {
        let rest = t.skip(1);
        lemma_word_filter(rest);
        let w = t.take(word_len(t));
        let more = rest.take(word_len(rest));
        assert(w =~= seq![t[0]] + more);
        Seq::filter_distributes_over_add(seq![t[0]], more, p);
        reveal_with_fuel(Seq::filter, 2);
        assert(seq![t[0]].drop_last() =~= Seq::empty());
        assert(seq![t[0]].filter(p) =~= seq![t[0]]);
    } else {
        assert(t.take(0) =~= Seq::empty());
    }
}

/// The words of a text are its characters but for the white space, in order.
pub proof fn law_words_hold_every_character(s: Seq<char>)
    ensures
        words(s).flatten() == s.filter(|c: char| !is_space(c)),
    decreases s.len(),
{
    let p = |c: char| !is_space(c);
    let t = trim_start(s);
    let n = word_len(t);
    lemma_trim_start_len(s);
    lemma_trim_start_filter(s);
    lemma_word_len(t);
    lemma_word_filter(t);
    if t.len() > 0 {
        let rest = t.skip(n);
        law_words_hold_every_character(rest);
        assert(t =~= t.take(n) + rest);
        Seq::filter_distributes_over_add(t.take(n), rest, p);
        assert(words(s) =~= seq![t.take(n)] + words(rest));
        assert(words(s).drop_first() =~= words(rest));
        assert(words(s).first() == t.take(n));
        assert(words(s).flatten() =~= t.take(n) + words(rest).flatten());
    } else {
        assert(words(s) =~= Seq::empty());
        reveal(Seq::filter);
        assert(t.filter(p) =~= Seq::empty());
    }
}

/// Slashes at the end go, and nothing else.
pub proof fn law_trimming_takes_only_slashes(s: Seq<char>)
    ensures
        trim_slashes(s).is_prefix_of(s),
        forall|i: int| trim_slashes(s).len() <= i < s.len() ==> #[trigger] s[i] == '/',
        trim_slashes(s).len() > 0 ==> trim_slashes(s).last() != '/',
    decreases s.len(),
{
    if s.len() > 0 && s.last() == '/' {
        let init = s.drop_last();
        law_trimming_takes_only_slashes(init);
        let t = trim_slashes(init);
        assert(s.take(t.len() as int) =~= init.take(t.len() as int));
        assert forall|i: int| t.len() <= i < s.len() implies #[trigger] s[i] == '/' by {
            if i < init.len() {
                assert(init[i] == s[i]);
            }
        }
    }
}

/// What is found in a text stands in it, and it is found wherever it stands.
pub proof fn law_found_is_there(hay: Seq<char>, needle: Seq<char>)
    ensures
        contains_str(hay, needle) <==> exists|a: Seq<char>, b: Seq<char>|
            #![trigger a + needle + b]
            hay == a + needle + b,
{
    lemma_find_from(hay, needle, 0);
    match find_from(hay, needle, 0) {
        Some(i) => {
            let a = hay.take(i);
            let b = hay.skip(i + needle.len());
            assert(hay =~= a + needle + b) by {
                assert(hay.subrange(i, i + needle.len()) == needle);
                assert(hay =~= a + hay.subrange(i, i + needle.len()) + b);
            }
        },
        None => {
            if exists|a: Seq<char>, b: Seq<char>|
                #![trigger a + needle + b]
                hay == a + needle + b {
                let (a, b) = choose|a: Seq<char>, b: Seq<char>|
                    #![trigger a + needle + b]
                    hay == a + needle + b;
                assert(hay.subrange(a.len() as int, a.len() as int + needle.len()) =~= needle);
                assert(occurs_at(hay, needle, a.len() as int));
            }
        },
    }
}

/// Of the ASCII characters, the space and those from the tab to the carriage return are
/// white space.
pub proof fn law_ascii_white_space(c: char)
    requires
        (c as u32) < 128,
    ensures
        is_space(c) <==> c == ' ' || 9 <= c as u32 <= 13,
{
}

/// Lower case is the same for a letter in either case, and leaves all else as it is.
pub proof fn law_lower_case(s: Seq<char>, i: int)
    requires
        0 <= i < s.len(),
    ensures
        ascii_lowered(s).len() == s.len(),
        'A' <= s[i] <= 'Z' ==> ascii_lowered(s)[i] as u32 == s[i] as u32 + 32,
        !('A' <= s[i] <= 'Z') ==> ascii_lowered(s)[i] == s[i],
        ascii_lowered(ascii_lowered(s)) == ascii_lowered(s),
{
    assert(ascii_lowered(ascii_lowered(s)) =~= ascii_lowered(s));
}

/// The characters that begin before a number of bytes: the last of them begins before it,
/// and the next one does not.
pub proof fn lemma_starting_before(s: Seq<char>, max: int)
    ensures
        ({
            let n = starting_before(s, max);
            &&& 0 <= n <= s.len()
            &&& n > 0 ==> byte_len(s.take(n - 1)) < max
            &&& n < s.len() ==> byte_len(s.take(n)) >= max
        }),
    decreases s.len(),
{
    assert(byte_len(s.take(0)) == 0) by {
        let none = Seq::<char>::empty();
        assert(s.take(0) =~= none);
        lemma_byte_len_concat(none, none);
        assert(none + none =~= none);
    }
    if s.len() > 0 && max > 0 {
        let rest = s.skip(1);
        let m = starting_before(rest, max - width(s[0]));
        lemma_starting_before(rest, max - width(s[0]));
        if m > 0 {
            lemma_byte_len_first(s.take(m));
            assert(s.take(m).skip(1) =~= rest.take(m - 1));
        }
        if m + 1 < s.len() {
            lemma_byte_len_first(s.take(m + 1));
            assert(s.take(m + 1).skip(1) =~= rest.take(m));
        }
    }
}

/// A number below zero is written behind a minus sign.
pub proof fn law_signed_numbers(n: int)
    ensures
        n >= 0 ==> signed_decimal(n) == decimal(n as nat),
        n < 0 ==> signed_decimal(n).len() > 1 && signed_decimal(n)[0] == '-' && digits_value(
            signed_decimal(n).skip(1),
        ) == -n,
{
    if n < 0 {
        lemma_decimal_value((-n) as nat);
        assert(signed_decimal(n).skip(1) =~= decimal((-n) as nat));
    }
}

/// To replace nothing puts the new text around every character.
pub proof fn law_replacing_the_empty_text(s: Seq<char>, to: Seq<char>)
    ensures
        replace(s, Seq::empty(), to) == to + s.flat_map(|c: char| seq![c] + to),
    decreases s.len(),
{
    let f = |c: char| seq![c] + to;
    if s.len() > 0 {
        law_replacing_the_empty_text(s.drop_last(), to);
        lemma_flat_map_last(s, f);
        assert(replace(s, Seq::empty(), to) =~= to + s.flat_map(f));
    } else {
        assert(s.map_values(f) =~= Seq::empty());
        assert(to + Seq::<char>::empty() =~= to);
    }
}

/// A line ends at the first line feed; one carriage return before it belongs to the end of
/// the line. What follows the last line feed is a line too, as it is.
pub proof fn law_lines_end_at_feeds(line: Seq<char>, rest: Seq<char>)
    requires
        !line.contains('\n'),
    ensures
        lines(line + seq!['\r', '\n'] + rest) == seq![line] + lines(rest),
        line.len() == 0 || line.last() != '\r' ==> lines(line + seq!['\n'] + rest) == seq![line]
            + lines(rest),
        line.len() > 0 ==> lines(line) == seq![line],
        lines(Seq::empty()).len() == 0,
{
    let ended = line.push('\r');
    assert(!ended.contains('\n')) by {
        assert forall|i: int| 0 <= i < ended.len() implies ended[i] != '\n' by {
            if i < line.len() {
                assert(line.contains(line[i]));
            }
        }
    }
    lemma_first_line(ended, rest);
    assert(line + seq!['\r', '\n'] + rest =~= ended + seq!['\n'] + rest);
    assert(strip_cr(ended) =~= line);
    lemma_first_line(line, rest);
    lemma_find_no_char(line, '\n');
}

/// The beginning of a text, as long as was asked for or as there is.
pub proof fn law_beginning_of_a_text(s: Seq<char>, n: nat)
    ensures
        prefix(s, n).is_prefix_of(s),
        prefix(s, n).len() == (if s.len() <= n {
            s.len()
        } else {
            n
        }),
{
}

} // verus!
