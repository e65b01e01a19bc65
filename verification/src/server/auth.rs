//! Access control for the web surface.
//!
//! Every tool call runs without approval, so reaching the server is as good as a
//! shell on the machine. It listens where others can reach it only with a token.
use crate::text;
use vstd::prelude::*;

verus! {

broadcast use vstd::std_specs::vec::axiom_spec_len;

/// The cookie that the browser keeps once a token was accepted.
pub const COOKIE: &'static str = "rustclaw_token";

/// The check that requests go through.
#[derive(Debug, Clone, PartialEq)]
pub struct Auth {
    token: Option<String>,
}

/// What becomes of a request.
#[derive(Debug, PartialEq)]
pub enum Gate {
    /// It goes on; where there is one, this cookie is set in the response.
    Pass { set_cookie: Option<String> },
    /// It is answered with this status and text.
    Deny { status: u16, text: &'static str },
}

/// The token that a request carries: in its `Authorization` header, in its query,
/// or in the cookie that was made from one.
pub open spec fn presented(
    authorization: Option<Seq<char>>,
    query: Option<Seq<char>>,
    cookies: Option<Seq<char>>,
) -> Option<Seq<char>> {
    let bearer = match authorization {
        Some(v) => text::strip_prefix(v, "Bearer "@),
        None => None,
    };
    if bearer is Some {
        bearer
    } else if token_in_query(query) is Some {
        token_in_query(query)
    } else {
        match cookies {
            Some(c) => cookie_in(text::split(c, ';'), COOKIE@),
            None => None,
        }
    }
}

/// The token that a query carries.
pub open spec fn token_in_query(query: Option<Seq<char>>) -> Option<Seq<char>> {
    match query {
        Some(q) => match query_in(text::split(q, '&'), "token"@) {
            Some(v) => Some(text::utf8_lossy(percent_bytes(vstd::utf8::encode_utf8(v), 0))),
            None => None,
        },
        None => None,
    }
}

/// The cookie that keeps a token.
pub open spec fn cookie_for(token: Seq<char>) -> Seq<char> {
    "rustclaw_token="@ + token + "; Path=/; Max-Age=31536000; SameSite=Lax; HttpOnly"@
}

impl Auth {
    /// The token that is asked for, if any.
    pub closed spec fn token(&self) -> Option<Seq<char>> {
        text::opt(self.token)
    }

    /// No token switches the check off, which is only allowed on loopback.
    pub fn new(token: Option<String>) -> (r: Auth)
        ensures
            r.token() == text::opt(token),
    {
        Auth { token }
    }

    /// Whether a token is asked for.
    pub fn required(&self) -> (r: bool)
        ensures
            r == (self.token() is Some),
    {
        self.token.is_some()
    }

    /// Whether a request with this token may pass.
    pub fn accepts(&self, presented: Option<&str>) -> (r: bool)
        ensures
            r == (match self.token() {
                Some(t) => presented matches Some(p) && p@ == t,
                None => true,
            }),
    {
        match &self.token {
            None => true,
            Some(expected) => match presented {
                None => false,
                Some(got) => {
                    proof {
                        vstd::utf8::encode_utf8_decode_utf8(got@);
                        vstd::utf8::encode_utf8_decode_utf8(expected@);
                    }
                    constant_time_eq(got.as_bytes(), expected.as_str().as_bytes())
                },
            },
        }
    }

    /// Decides on a request from its `Authorization` header, its query and its
    /// `Cookie` header. A token that came in the query is exchanged for a cookie, so
    /// that the page can be bookmarked without it.
    pub fn guard(
        &self,
        authorization: Option<&str>,
        query: Option<&str>,
        cookies: Option<&str>,
    ) -> (r: Gate)
        ensures
            match self.token() {
                None => r == (Gate::Pass { set_cookie: None }),
                Some(t) => if presented(opt(authorization), opt(query), opt(cookies)) == Some(t) {
                    match (r, token_in_query(opt(query))) {
                        (Gate::Pass { set_cookie: Some(c) }, Some(q)) => c@ == cookie_for(q),
                        (Gate::Pass { set_cookie: None }, None) => true,
                        _ => false,
                    }
                } else {
                    r matches Gate::Deny { status, text } && status == 401 && text@
                        == "invalid or missing token"@
                },
            },
    {
        if !self.required() {
            return Gate::Pass { set_cookie: None };
        }
        let bearer = match authorization {
            Some(v) => text::strip_prefix_of(v, "Bearer "),
            None => None,
        };
        let from_query = match query {
            Some(q) => query_value(q, "token"),
            None => None,
        };
        let from_cookie = match cookies {
            Some(c) => cookie_value(c, COOKIE),
            None => None,
        };
        let accepted = match &bearer {
            Some(t) => self.accepts(Some(t.as_str())),
            None => match &from_query {
                Some(t) => self.accepts(Some(t.as_str())),
                None => match &from_cookie {
                    Some(t) => self.accepts(Some(t.as_str())),
                    None => self.accepts(None),
                },
            },
        };
        if !accepted {
            return Gate::Deny { status: 401, text: "invalid or missing token" };
        }
        match from_query {
            Some(t) => {
                let mut c = "rustclaw_token=".to_owned();
                c.push_str(t.as_str());
                c.push_str("; Path=/; Max-Age=31536000; SameSite=Lax; HttpOnly");
                Gate::Pass { set_cookie: Some(c) }
            },
            None => Gate::Pass { set_cookie: None },
        }
    }
}

/// What an optional text holds.
pub open spec fn opt(s: Option<&str>) -> Option<Seq<char>> {
    match s {
        Some(x) => Some(x@),
        None => None,
    }
}

/// An address that is reachable only from this machine: `localhost` in any
/// spelling, or an IP address of the loopback range. `ip_loopback` says, of an
/// address that is an IP address, whether it is in that range.
pub open spec fn local_only(bind: Seq<char>, ip_loopback: Option<bool>) -> bool {
    text::ascii_lowered(bind) == "localhost"@ || ip_loopback == Some(true)
}

/// Whether an address is reachable only from this machine.
pub fn is_loopback(bind: &str, ip_loopback: Option<bool>) -> (r: bool)
    ensures
        r == local_only(bind@, ip_loopback),
{
    let low = text::ascii_lower_of(bind);
    text::str_eq(low.as_str(), "localhost") || match ip_loopback {
        Some(b) => b,
        None => false,
    }
}

/// Why the server does not start on an address that others can reach.
pub open spec fn refusal(host: Seq<char>) -> Seq<char> {
    "refusing to serve on "@ + host
        + ": it is reachable from other machines and RUSTCLAW_TOKEN is not set.\n\n  Generate one with:  rustclaw token\n\nThen reconnect, or set server.bind = \"127.0.0.1\" to stay local-only."@
}

/// The check that a server on `host` needs, given what the environment holds under
/// `RUSTCLAW_TOKEN`. Without a token it serves this machine only: refusing is the
/// only safe default, a warning would be ignored.
pub fn check_bind(host: &str, ip_loopback: Option<bool>, token: Option<String>) -> (r: Result<
    Auth,
    String,
>)
    ensures
        match r {
            Ok(auth) => {
                &&& auth.token() == crate::config::nonempty(text::opt(token))
                &&& local_only(host@, ip_loopback) || auth.token() is Some
            },
            Err(e) => {
                &&& !local_only(host@, ip_loopback)
                &&& crate::config::nonempty(text::opt(token)) is None
                &&& e@ == refusal(host@)
            },
        },
{
    let token = match token {
        Some(t) => if t.as_str().is_empty() {
            None
        } else {
            Some(t)
        },
        None => None,
    };
    if !is_loopback(host, ip_loopback) && token.is_none() {
        let mut out = "refusing to serve on ".to_owned();
        out.push_str(host);
        out.push_str(
            ": it is reachable from other machines and RUSTCLAW_TOKEN is not set.\n\n  Generate one with:  rustclaw token\n\nThen reconnect, or set server.bind = \"127.0.0.1\" to stay local-only.",
        );
        return Err(out);
    }
    Ok(Auth::new(token))
}

/// The value of the first of `parts` that is a cookie called `name`.
pub open spec fn cookie_in(parts: Seq<Seq<char>>, name: Seq<char>) -> Option<Seq<char>>
    decreases parts.len(),
{
    if parts.len() == 0 {
        None
    } else {
        match text::split_once(parts[0], '=') {
            Some((k, v)) if text::trim(k) == name => Some(text::trim(v)),
            _ => cookie_in(parts.skip(1), name),
        }
    }
}

/// The value of the cookie `name`.
pub fn cookie_value(header: &str, name: &str) -> (r: Option<String>)
    ensures
        match r {
            Some(v) => cookie_in(text::split(header@, ';'), name@) == Some(v@),
            None => cookie_in(text::split(header@, ';'), name@) is None,
        },
{
    let parts = text::split_of(header, ';');
    let ghost all = text::split(header@, ';');
    let mut i: usize = 0;
    assert(all.skip(0) =~= all);
    while i < parts.len()
        invariant
            i <= parts@.len(),
            text::views(parts@) == all,
            all == text::split(header@, ';'),
            cookie_in(all, name@) == cookie_in(all.skip(i as int), name@),
        decreases parts@.len() - i,
    {
        assert(all.skip(i as int)[0] == parts@[i as int]@);
        assert(all.skip(i as int).skip(1) =~= all.skip(i + 1));
        if let Some((k, v)) = text::split_once_of(parts[i].as_str(), '=') {
            let key = text::trimmed(k.as_str());
            if text::str_eq(key.as_str(), name) {
                return Some(text::trimmed(v.as_str()));
            }
        }
        i += 1;
    }
    None
}

/// The raw value of the first of `pairs` whose key is `name`.
pub open spec fn query_in(pairs: Seq<Seq<char>>, name: Seq<char>) -> Option<Seq<char>>
    decreases pairs.len(),
{
    if pairs.len() == 0 {
        None
    } else {
        match text::split_once(pairs[0], '=') {
            Some((k, v)) if k == name => Some(v),
            _ => query_in(pairs.skip(1), name),
        }
    }
}

/// The raw value of the query parameter `name`.
pub fn raw_query_value(query: &str, name: &str) -> (r: Option<String>)
    ensures
        match r {
            Some(v) => query_in(text::split(query@, '&'), name@) == Some(v@),
            None => query_in(text::split(query@, '&'), name@) is None,
        },
{
    let pairs = text::split_of(query, '&');
    let ghost all = text::split(query@, '&');
    let mut i: usize = 0;
    assert(all.skip(0) =~= all);
    while i < pairs.len()
        invariant
            i <= pairs@.len(),
            text::views(pairs@) == all,
            all == text::split(query@, '&'),
            query_in(all, name@) == query_in(all.skip(i as int), name@),
        decreases pairs@.len() - i,
    {
        assert(all.skip(i as int)[0] == pairs@[i as int]@);
        assert(all.skip(i as int).skip(1) =~= all.skip(i + 1));
        if let Some((k, v)) = text::split_once_of(pairs[i].as_str(), '=') {
            if text::str_eq(k.as_str(), name) {
                return Some(v);
            }
        }
        i += 1;
    }
    None
}

/// The value of the query parameter `name`, decoded.
pub fn query_value(query: &str, name: &str) -> (r: Option<String>)
    ensures
        match r {
            Some(v) => query_in(text::split(query@, '&'), name@) matches Some(raw) && v@
                == text::utf8_lossy(percent_bytes(vstd::utf8::encode_utf8(raw), 0)),
            None => query_in(text::split(query@, '&'), name@) is None,
        },
{
    match raw_query_value(query, name) {
        Some(raw) => Some(percent_decode(raw.as_str())),
        None => None,
    }
}

/// The number that an ASCII hex digit writes.
pub open spec fn hex_value(b: u8) -> Option<int> {
    if 48 <= b <= 57 {
        Some(b - 48)
    } else if 97 <= b <= 102 {
        Some(b - 87)
    } else if 65 <= b <= 70 {
        Some(b - 55)
    } else {
        None
    }
}

/// The byte that two characters write in hex.
pub open spec fn hex_pair(a: u8, b: u8) -> Option<int> {
    match (hex_value(a), hex_value(b)) {
        (Some(x), Some(y)) => Some(16 * x + y),
        _ => None,
    }
}

fn hex_value_of(b: u8) -> (r: Option<u8>)
    ensures
        match r {
            Some(v) => hex_value(b) == Some(v as int) && v < 16,
            None => hex_value(b) is None,
        },
{
    if 48 <= b && b <= 57 {
        Some(b - 48)
    } else if 97 <= b && b <= 102 {
        Some(b - 87)
    } else if 65 <= b && b <= 70 {
        Some(b - 55)
    } else {
        None
    }
}

fn hex_pair_of(a: u8, b: u8) -> (r: Option<u8>)
    ensures
        match r {
            Some(v) => hex_pair(a, b) == Some(v as int),
            None => hex_pair(a, b) is None,
        },
{
    match (hex_value_of(a), hex_value_of(b)) {
        (Some(x), Some(y)) => Some(16 * x + y),
        _ => None,
    }
}

/// The bytes that a query value stands for, from `i` on: escapes decoded, plus
/// signs as spaces, everything else as it is.
pub open spec fn percent_bytes(raw: Seq<u8>, i: int) -> Seq<u8>
    decreases raw.len() - i,
{
    if i < 0 || i >= raw.len() {
        Seq::empty()
    } else if raw[i] == 37 && i + 2 < raw.len() && hex_pair(raw[i + 1], raw[i + 2]) is Some {
        seq![hex_pair(raw[i + 1], raw[i + 2])->0 as u8] + percent_bytes(raw, i + 3)
    } else {
        seq![
            if raw[i] == 43 {
                32u8
            } else {
                raw[i]
            },
        ] + percent_bytes(raw, i + 1)
    }
}

/// The bytes that a query value stands for.
pub fn decode_bytes(s: &str) -> (r: Vec<u8>)
    ensures
        r@ == percent_bytes(vstd::utf8::encode_utf8(s@), 0),
{
    let raw = s.as_bytes();
    let ghost all = vstd::utf8::encode_utf8(s@);
    let len: usize = raw.len();
    let mut out: Vec<u8> = Vec::new();
    let mut i: usize = 0;
    assert(out@ + percent_bytes(all, 0) =~= percent_bytes(all, 0));
    while i < len
        invariant
            i <= len,
            len == raw@.len(),
            raw@ == all,
            percent_bytes(all, 0) == out@ + percent_bytes(all, i as int),
        decreases len - i,
    {
        let ghost before = out@;
        let escape = if raw[i] == 37 && len - i > 2 {
            hex_pair_of(raw[i + 1], raw[i + 2])
        } else {
            None
        };
        match escape {
            Some(b) => {
                out.push(b);
                assert(before + (seq![b] + percent_bytes(all, i + 3)) =~= out@ + percent_bytes(
                    all,
                    i + 3,
                ));
                i += 3;
            },
            None => {
                let b: u8 = if raw[i] == 43 {
                    32
                } else {
                    raw[i]
                };
                out.push(b);
                assert(before + (seq![b] + percent_bytes(all, i + 1)) =~= out@ + percent_bytes(
                    all,
                    i + 1,
                ));
                i += 1;
            },
        }
    }
    assert(out@ + Seq::<u8>::empty() =~= out@);
    out
}

/// The text that a query value stands for.
pub fn percent_decode(s: &str) -> (r: String)
    ensures
        r@ == text::utf8_lossy(percent_bytes(vstd::utf8::encode_utf8(s@), 0)),
{
    let bytes = decode_bytes(s);
    text::lossy(bytes.as_slice())
}

/// Whether two secrets are equal, found without showing where they first differ.
pub fn constant_time_eq(a: &[u8], b: &[u8]) -> (r: bool)
    ensures
        r == (a@ == b@),
{
    if a.len() != b.len() {
        return false;
    }
    let mut seen: u8 = 0;
    let mut i: usize = 0;
    while i < a.len()
        invariant
            i <= a@.len(),
            a@.len() == b@.len(),
            seen == 0 <==> (forall|j: int| 0 <= j < i ==> a@[j] == b@[j]),
        decreases a@.len() - i,
    {
        let x = a[i];
        let y = b[i];
        assert(seen | (x ^ y) == 0u8 <==> seen == 0u8 && x == y) by (bit_vector);
        assert((forall|j: int| 0 <= j < i + 1 ==> a@[j] == b@[j]) <==> (forall|j: int|
            0 <= j < i ==> a@[j] == b@[j]) && a@[i as int] == b@[i as int]) by {
            if (forall|j: int| 0 <= j < i ==> a@[j] == b@[j]) && a@[i as int] == b@[i as int] {
                assert forall|j: int| 0 <= j < i + 1 implies a@[j] == b@[j] by {
                    if j < i {
                        assert(a@[j] == b@[j]);
                    }
                }
            }
        }
        seen = seen | (x ^ y);
        i += 1;
    }
    if seen == 0 {
        assert(a@ =~= b@);
    }
    seen == 0
}

/// The cookie that a token was exchanged for lets the next request pass as the
/// token itself did, where the token holds no semicolon and no white space at its
/// ends.
pub proof fn law_cookie_stands_for_its_token(token: Seq<char>)
    requires
        !token.contains(';'),
        text::trim(token) == token,
    ensures
        presented(None, None, Some("rustclaw_token="@ + token)) == Some(token),
{
    reveal_strlit("rustclaw_token=");
    reveal_strlit("rustclaw_token");
    let s = "rustclaw_token="@ + token;
    assert forall|i: int| 0 <= i < s.len() implies s[i] != ';' by {
        if i < 15 {
            assert(s[i] == "rustclaw_token="@[i]);
        } else {
            assert(s[i] == token[i - 15]);
            assert(token.contains(token[i - 15]));
        }
    }
    assert(!s.contains(';'));
    text::lemma_find_no_char(s, ';');
    let parts = text::split(s, ';');
    assert(parts =~= seq![s]);
    assert forall|j: int| 0 <= j < 14 implies #[trigger] s[j] != '=' by {
        assert(s[j] == "rustclaw_token="@[j]);
    }
    assert(s[14] == '=');
    text::lemma_find_char(s, '=', 14);
    let name = s.take(14);
    assert(name =~= COOKIE@);
    assert(s.skip(15) =~= token);
    assert(text::trim_start(name) == name);
    assert(text::trim(name) == name);
    assert(text::split_once(parts[0], '=') == Some((name, token)));
}

/// A token made of random bytes.
pub fn token_of(bytes: &[u8]) -> (r: String)
    ensures
        r@ == text::hex(bytes@),
        r@.len() == 2 * bytes@.len(),
{
    proof {
        lemma_hex_len(bytes@);
    }
    text::hex_of(bytes)
}

proof fn lemma_hex_len(bytes: Seq<u8>)
    ensures
        text::hex(bytes).len() == 2 * bytes.len(),
    decreases bytes.len(),
{
    if bytes.len() > 0 {
        lemma_hex_len(bytes.drop_last());
    }
}

/// Tokens of different bytes differ.
pub proof fn law_tokens_are_distinct(a: Seq<u8>, b: Seq<u8>)
    requires
        text::hex(a) == text::hex(b),
    ensures
        a == b,
    decreases a.len(),
{
    lemma_hex_len(a);
    lemma_hex_len(b);
    if a.len() == 0 {
        assert(a =~= b);
    } else {
        let x = text::hex(a);
        let y = text::hex(b);
        let n = x.len() as int;
        assert(x.take(n - 2) =~= text::hex(a.drop_last()));
        assert(y.take(n - 2) =~= text::hex(b.drop_last()));
        law_tokens_are_distinct(a.drop_last(), b.drop_last());
        assert(x[n - 2] == text::hex_digit(a.last() as nat / 16));
        assert(y[n - 2] == text::hex_digit(b.last() as nat / 16));
        assert(x[n - 1] == text::hex_digit(a.last() as nat % 16));
        assert(y[n - 1] == text::hex_digit(b.last() as nat % 16));
        lemma_hex_digit_injective(a.last() as nat / 16, b.last() as nat / 16);
        lemma_hex_digit_injective(a.last() as nat % 16, b.last() as nat % 16);
        assert(a.last() == b.last());
        assert(a =~= a.drop_last().push(a.last()));
        assert(b =~= b.drop_last().push(b.last()));
    }
}

proof fn lemma_hex_digit_injective(a: nat, b: nat)
    requires
        a < 16,
        b < 16,
        text::hex_digit(a) == text::hex_digit(b),
    ensures
        a == b,
{
}

/// A token in the header is the one that counts, whatever else the request holds; else
/// one in the query does, and only then a cookie.
pub proof fn law_header_comes_first(
    token: Seq<char>,
    query: Option<Seq<char>>,
    cookies: Option<Seq<char>>,
)
    ensures
        presented(Some("Bearer "@ + token), query, cookies) == Some(token),
        token_in_query(query) is Some ==> presented(None, query, cookies) == token_in_query(query),
        presented(None, None, None) is None,
{
    let p = "Bearer "@;
    assert(p.is_prefix_of(p + token));
    assert((p + token).skip(p.len() as int) =~= token);
}

/// The first pair of a query under a name is the one that counts.
pub proof fn law_first_pair_counts(
    pairs: Seq<Seq<char>>,
    name: Seq<char>,
    value: Seq<char>,
    i: int,
)
    requires
        !name.contains('='),
        0 <= i < pairs.len(),
        pairs[i] == name + seq!['='] + value,
        forall|j: int| 0 <= j < i ==> !(name + seq!['=']).is_prefix_of(#[trigger] pairs[j]),
    ensures
        query_in(pairs, name) == Some(value),
    decreases i,
{
    let first = pairs[0];
    text::lemma_find_from(first, seq!['='], 0);
    if i > 0 {
        let rest = pairs.skip(1);
        assert forall|j: int| 0 <= j < i - 1 implies !(name + seq!['=']).is_prefix_of(
            #[trigger] rest[j],
        ) by {
            assert(rest[j] == pairs[j + 1]);
        }
        law_first_pair_counts(rest, name, value, i - 1);
        if let Some(k) = text::find_from(first, seq!['='], 0) {
            if first.take(k) == name {
                assert(first.subrange(k, k + 1)[0] == first[k]);
                assert((name + seq!['=']) =~= first.take(k + 1));
                assert((name + seq!['=']).is_prefix_of(first));
            }
        }
    } else {
        let n = name.len() as int;
        assert(first[n] == '=');
        assert forall|j: int| 0 <= j < n implies #[trigger] first[j] != '=' by {
            assert(first[j] == name[j]);
            assert(name.contains(name[j]));
        }
        text::lemma_find_char(first, '=', n);
        assert(first.take(n) =~= name);
        assert(first.skip(n + 1) =~= value);
    }
}

proof fn lemma_percent_behind(a: Seq<u8>, b: Seq<u8>, i: int)
    requires
        0 <= i,
    ensures
        percent_bytes(a + b, a.len() + i) == percent_bytes(b, i),
    decreases b.len() - i,
{
    if i < b.len() {
        let s = a + b;
        assert(s[a.len() + i] == b[i]);
        if i + 2 < b.len() {
            assert(s[a.len() + i + 1] == b[i + 1]);
            assert(s[a.len() + i + 2] == b[i + 2]);
        }
        if b[i] == 37 && i + 2 < b.len() && hex_pair(b[i + 1], b[i + 2]) is Some {
            lemma_percent_behind(a, b, i + 3);
        } else {
            lemma_percent_behind(a, b, i + 1);
        }
    }
}

/// What is not encoded is left as it is, but for a plus sign, which is a space.
pub proof fn law_plain_bytes_stay(b: u8, rest: Seq<u8>)
    requires
        b != 37,
    ensures
        percent_bytes(seq![b] + rest, 0) == seq![
            if b == 43 {
                32u8
            } else {
                b
            },
        ] + percent_bytes(rest, 0),
{
    lemma_percent_behind(seq![b], rest, 0);
    assert((seq![b] + rest)[0] == b);
}

/// One of the sixteen digits, as it is written.
pub open spec fn hex_byte(d: int) -> u8 {
    (if d < 10 {
        48 + d
    } else {
        55 + d
    }) as u8
}

/// Encoding is undone: whatever bytes were encoded, each by its two digits, are read
/// back.
pub proof fn law_encoded_bytes_are_read_back(bytes: Seq<u8>)
    ensures
        percent_bytes(
            bytes.flat_map(|b: u8| seq![37u8, hex_byte(b as int / 16), hex_byte(b as int % 16)]),
            0,
        ) == bytes,
    decreases bytes.len(),
{
    let f = |b: u8| seq![37u8, hex_byte(b as int / 16), hex_byte(b as int % 16)];
    if bytes.len() > 0 {
        let first = bytes[0];
        let rest = bytes.skip(1);
        law_encoded_bytes_are_read_back(rest);
        assert(bytes =~= seq![first] + rest);
        text::lemma_flat_map_add(seq![first], rest, f);
        text::lemma_flat_map_last(seq![first], f);
        assert(seq![first].drop_last() =~= Seq::empty());
        assert(Seq::<u8>::empty().map_values(f) =~= Seq::empty());
        assert(seq![first].flat_map(f) =~= f(first));
        let code = f(first);
        let s = code + rest.flat_map(f);
        assert(s[0] == 37 && s[1] == hex_byte(first as int / 16) && s[2] == hex_byte(
            first as int % 16,
        ));
        let (x, y) = (first as int / 16, first as int % 16);
        assert(0 <= x < 16 && 0 <= y < 16 && 16 * x + y == first);
        assert(hex_value(hex_byte(x)) == Some(x));
        assert(hex_value(hex_byte(y)) == Some(y));
        lemma_percent_behind(code, rest.flat_map(f), 0);
        assert(seq![first] + rest =~= bytes);
    } else {
        assert(bytes.map_values(f) =~= Seq::empty());
        assert(bytes =~= Seq::empty());
    }
}

/// The first cookie under a name is the one that counts, without the spaces around it.
pub proof fn law_first_cookie_counts(
    parts: Seq<Seq<char>>,
    key: Seq<char>,
    value: Seq<char>,
    i: int,
)
    requires
        !key.contains('='),
        0 <= i < parts.len(),
        parts[i] == key + seq!['='] + value,
        forall|j: int|
            0 <= j < i ==> (text::split_once(#[trigger] parts[j], '=') matches Some(pair)
                ==> text::trim(pair.0) != text::trim(key)),
    ensures
        cookie_in(parts, text::trim(key)) == Some(text::trim(value)),
    decreases i,
{
    if i > 0 {
        let rest = parts.skip(1);
        assert forall|j: int| 0 <= j < i - 1 implies (text::split_once(#[trigger] rest[j], '=')
            matches Some(pair) ==> text::trim(pair.0) != text::trim(key)) by {
            assert(rest[j] == parts[j + 1]);
        }
        law_first_cookie_counts(rest, key, value, i - 1);
        assert(text::split_once(parts[0], '=') matches Some(pair) ==> text::trim(pair.0)
            != text::trim(key));
    } else {
        text::law_split_at_the_first(key, '=', value);
    }
}

/// The cookie that is set brings the token back with the next request.
pub proof fn law_cookie_brings_the_token_back(token: Seq<char>)
    requires
        !token.contains(';'),
        text::trim(token) == token,
    ensures
        presented(None, None, Some(text::split(cookie_for(token), ';')[0])) == Some(token),
{
    law_cookie_stands_for_its_token(token);
    let first = "rustclaw_token="@ + token;
    let rest = "; Path=/; Max-Age=31536000; SameSite=Lax; HttpOnly"@;
    let s = cookie_for(token);
    let n = first.len() as int;
    reveal_strlit("rustclaw_token=");
    reveal_strlit("; Path=/; Max-Age=31536000; SameSite=Lax; HttpOnly");
    assert(s =~= first + rest);
    assert(s[n] == ';');
    assert forall|j: int| 0 <= j < n implies #[trigger] s[j] != ';' by {
        if j >= 15 {
            assert(s[j] == token[j - 15]);
            assert(token.contains(token[j - 15]));
        }
    }
    text::lemma_find_char(s, ';', n);
    assert(s.take(n) =~= first);
    assert(text::split(s, ';')[0] == first);
}

/// Only this machine reaches `localhost`, however it is written, and a loopback address.
pub proof fn law_local_is_this_machine(bind: Seq<char>)
    ensures
        local_only(bind, Some(true)),
        text::ascii_lowered(bind) == "localhost"@ ==> local_only(bind, None) && local_only(
            bind,
            Some(false),
        ),
        text::ascii_lowered(bind) != "localhost"@ ==> !local_only(bind, None) && !local_only(
            bind,
            Some(false),
        ),
{
}

} // verus!
