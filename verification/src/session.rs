//! Stored conversations: their names, their transcripts, and how they are listed.
//!
//! A transcript only grows, line by line, except where it is rewritten as a
//! whole. The listing is a cache that can be rebuilt from the transcripts.
use crate::compact;
use crate::json;
use crate::json::{Json, JsonModel, JsonObject};
use crate::paths;
use crate::text;
use crate::tools::exec;
use crate::transcript;
pub use crate::transcript::Entry;
use crate::transcript::EntryModel;
use crate::types;
use crate::types::{Message, MessageModel};
use vstd::prelude::*;

verus! {

broadcast use vstd::std_specs::vec::axiom_spec_len;

/// What a listing shows of a conversation.
#[derive(Debug, PartialEq)]
pub struct SessionMeta {
    pub id: String,
    pub title: String,
    /// Unix seconds.
    pub updated_at: u64,
    pub messages: usize,
}

/// What a [`SessionMeta`] holds.
pub struct MetaModel {
    pub id: Seq<char>,
    pub title: Seq<char>,
    pub updated_at: u64,
    pub messages: usize,
}

impl SessionMeta {
    pub open spec fn view(&self) -> MetaModel {
        MetaModel {
            id: self.id@,
            title: self.title@,
            updated_at: self.updated_at,
            messages: self.messages,
        }
    }
}

impl Clone for SessionMeta {
    fn clone(&self) -> (r: SessionMeta)
        ensures
            r@ == self@,
    {
        SessionMeta {
            id: self.id.clone(),
            title: self.title.clone(),
            updated_at: self.updated_at,
            messages: self.messages,
        }
    }
}

/// What the rows `ms` hold.
pub open spec fn rows(ms: Seq<SessionMeta>) -> Seq<MetaModel> {
    Seq::new(ms.len(), |i: int| ms[i]@)
}

/// Titles are cut to this.
pub const MAX_TITLE_CHARS: usize = 60;

/// The longest id.
pub const MAX_ID_CHARS: usize = 128;

/// A character that ids are made of: an ASCII letter or digit, `-` or `_`.
pub open spec fn is_id_char(c: char) -> bool {
    ||| 'a' <= c <= 'z'
    ||| 'A' <= c <= 'Z'
    ||| '0' <= c <= '9'
    ||| c == '-'
    ||| c == '_'
}

/// A well-formed id.
pub open spec fn valid_id(id: Seq<char>) -> bool {
    &&& 0 < id.len() <= MAX_ID_CHARS
    &&& forall|i: int| 0 <= i < id.len() ==> is_id_char(#[trigger] id[i])
}

/// Whether `id` is well-formed. Ids come from the network as free text; anything
/// else could name a file outside the sessions directory.
pub fn is_valid_id(id: &str) -> (r: bool)
    ensures
        r == valid_id(id@),
{
    let cs = text::chars_of(id);
    if cs.len() == 0 || cs.len() > MAX_ID_CHARS {
        return false;
    }
    let mut i: usize = 0;
    while i < cs.len()
        invariant
            i <= cs@.len(),
            cs@ == id@,
            forall|j: int| 0 <= j < i ==> is_id_char(#[trigger] id@[j]),
        decreases cs@.len() - i,
    {
        let c = cs[i];
        if !(('a' <= c && c <= 'z') || ('A' <= c && c <= 'Z') || ('0' <= c && c <= '9') || c == '-'
            || c == '_') {
            assert(!is_id_char(id@[i as int]));
            return false;
        }
        i += 1;
    }
    true
}

/// The directory of all transcripts.
pub open spec fn sessions_dir(root: Seq<char>) -> Seq<char> {
    paths::joined(root, "sessions"@)
}

/// The directory of all transcripts.
pub fn dir(root: &str) -> (r: String)
    ensures
        r@ == sessions_dir(root@),
{
    paths::join(root, "sessions")
}

/// Where the transcript of `id` lies.
pub open spec fn transcript_file(dir: Seq<char>, id: Seq<char>) -> Seq<char> {
    paths::joined(dir, id + ".jsonl"@)
}

/// Where the transcript of `id` lies.
pub fn transcript_path(dir: &str, id: &str) -> (r: String)
    ensures
        r@ == transcript_file(dir@, id@),
{
    let mut name = id.to_owned();
    name.push_str(".jsonl");
    paths::join(dir, name.as_str())
}

/// A well-formed id names a file right in the directory: behind the directory and
/// one slash comes a name without any, which starts with no dot.
pub proof fn law_valid_id_stays_inside(dir: Seq<char>, id: Seq<char>)
    requires
        valid_id(id),
        dir.len() > 0,
        dir.last() != '/',
    ensures
        transcript_file(dir, id) == dir.push('/') + (id + ".jsonl"@),
        !(id + ".jsonl"@).contains('/'),
        !id.contains('.'),
{
    reveal_strlit(".jsonl");
    let name = id + ".jsonl"@;
    assert(is_id_char(id[0]));
    assert(name[0] == id[0]);
    assert forall|i: int| 0 <= i < name.len() implies name[i] != '/' by {
        if i < id.len() {
            assert(is_id_char(id[i]));
        }
    }
    assert forall|i: int| 0 <= i < id.len() implies id[i] != '.' by {
        assert(is_id_char(id[i]));
    }
}

/// The id of a session that starts in second `secs` as the `n`th after the first.
pub open spec fn id_text(secs: u64, n: u64) -> Seq<char> {
    if n == 0 {
        "s"@ + text::decimal(secs as nat)
    } else {
        "s"@ + text::decimal(secs as nat) + "_"@ + text::decimal(n as nat)
    }
}

/// What the ids are made from: the second of the last one, and how many came in
/// it after the first.
pub struct IdMint {
    pub last_secs: u64,
    pub seq: u64,
}

impl IdMint {
    pub fn new() -> (r: IdMint)
        ensures
            r.last_secs == 0,
            r.seq == 0,
    {
        IdMint { last_secs: 0, seq: 0 }
    }

    /// How many ids came before the next one in second `secs`.
    pub open spec fn next_seq(&self, secs: u64) -> u64 {
        if self.last_secs == secs {
            vstd::wrapping::u64_specs::wrapping_add(self.seq, 1)
        } else {
            0
        }
    }
}

impl Session {
    /// The id of a session that starts in second `secs`. Sessions of the same
    /// second are told apart by a number.
    pub fn new_id(mint: &mut IdMint, secs: u64) -> (r: String)
        ensures
            final(mint).last_secs == secs,
            final(mint).seq == old(mint).next_seq(secs),
            r@ == id_text(secs, old(mint).next_seq(secs)),
    {
        let n: u64 = if mint.last_secs == secs {
            mint.seq.wrapping_add(1)
        } else {
            0
        };
        mint.last_secs = secs;
        mint.seq = n;
        let mut out = "s".to_owned();
        let d = text::decimal_of(secs);
        out.push_str(d.as_str());
        if n != 0 {
            out.push_str("_");
            let k = text::decimal_of(n);
            out.push_str(k.as_str());
        }
        out
    }
}

/// Different numbers are written differently.
proof fn lemma_decimal_injective(a: nat, b: nat)
    requires
        text::decimal(a) == text::decimal(b),
    ensures
        a == b,
{
    text::lemma_decimal_value(a);
    text::lemma_decimal_value(b);
}

proof fn lemma_decimal_len(n: nat, k: nat)
    requires
        n < pow10(k),
        k > 0,
    ensures
        text::decimal(n).len() <= k,
    decreases k,
{
    if n >= 10 {
        assert(k > 1) by {
            if k == 1 {
                assert(pow10(1) == 10) by {
                    reveal_with_fuel(pow10, 2);
                }
            }
        }
        assert(pow10(k) == 10 * pow10((k - 1) as nat));
        lemma_decimal_len(n / 10, (k - 1) as nat);
    }
}

spec fn pow10(k: nat) -> nat
    decreases k,
{
    if k == 0 {
        1
    } else {
        10 * pow10((k - 1) as nat)
    }
}

/// Every id that is given out is well-formed.
pub proof fn law_minted_ids_are_valid(secs: u64, n: u64)
    ensures
        valid_id(id_text(secs, n)),
{
    reveal_strlit("s");
    reveal_strlit("_");
    let a = text::decimal(secs as nat);
    let b = text::decimal(n as nat);
    text::lemma_decimal_value(secs as nat);
    text::lemma_decimal_value(n as nat);
    assert(pow10(20) == 100000000000000000000) by {
        reveal_with_fuel(pow10, 21);
    }
    lemma_decimal_len(secs as nat, 20);
    lemma_decimal_len(n as nat, 20);
    let id = id_text(secs, n);
    assert forall|i: int| 0 <= i < id.len() implies is_id_char(#[trigger] id[i]) by {
        if i == 0 {
            assert(id[0] == 's');
        } else if i < 1 + a.len() {
            assert(id[i] == a[i - 1]);
            assert(text::is_digit(a[i - 1]));
        } else if i == 1 + a.len() {
            assert(id[i] == '_');
        } else {
            assert(id[i] == b[i - 2 - a.len()]);
            assert(text::is_digit(b[i - 2 - a.len()]));
        }
    }
}

/// Ids of different seconds, or of different numbers in one second, differ.
pub proof fn law_ids_differ(secs: u64, n: u64, other_secs: u64, m: u64)
    requires
        secs != other_secs || n != m,
    ensures
        id_text(secs, n) != id_text(other_secs, m),
{
    reveal_strlit("s");
    reveal_strlit("_");
    let x = id_text(secs, n);
    let y = id_text(other_secs, m);
    let a = text::decimal(secs as nat);
    let c = text::decimal(other_secs as nat);
    let b = text::decimal(n as nat);
    let d = text::decimal(m as nat);
    text::lemma_decimal_value(secs as nat);
    text::lemma_decimal_value(other_secs as nat);
    text::lemma_decimal_value(n as nat);
    text::lemma_decimal_value(m as nat);
    if x == y {
        assert forall|i: int| 0 <= i < a.len() implies #[trigger] x[i + 1] == a[i] && a[i]
            != '_' by {
            assert(text::is_digit(a[i]));
        }
        assert forall|i: int| 0 <= i < c.len() implies #[trigger] y[i + 1] == c[i] && c[i]
            != '_' by {
            assert(text::is_digit(c[i]));
        }
        if a.len() < c.len() {
            let k = a.len() as int;
            assert(y[k + 1] == c[k]);
            if n != 0 {
                assert(x[k + 1] == '_');
            } else {
                assert(x.len() == k + 1);
            }
            assert(false);
        }
        if c.len() < a.len() {
            let k = c.len() as int;
            assert(x[k + 1] == a[k]);
            if m != 0 {
                assert(y[k + 1] == '_');
            } else {
                assert(y.len() == k + 1);
            }
            assert(false);
        }
        assert forall|i: int| 0 <= i < a.len() implies a[i] == c[i] by {
            assert(x[i + 1] == a[i]);
            assert(y[i + 1] == c[i]);
        }
        assert(a =~= c);
        lemma_decimal_injective(secs as nat, other_secs as nat);
        if n == 0 && m != 0 {
            assert(x.len() == a.len() + 1);
            assert(y.len() == a.len() + 2 + d.len());
        } else if n != 0 && m == 0 {
            assert(y.len() == a.len() + 1);
            assert(x.len() == a.len() + 2 + b.len());
        } else if n != 0 {
            assert(x.len() == a.len() + 2 + b.len());
            assert(y.len() == c.len() + 2 + d.len());
            assert forall|i: int| 0 <= i < b.len() implies b[i] == d[i] by {
                assert(x[i + 2 + a.len()] == b[i]);
                assert(y[i + 2 + a.len()] == d[i]);
            }
            assert(b =~= d);
            lemma_decimal_injective(n as nat, m as nat);
        }
    }
}

/// The number of each id that a mint gives out for the seconds `clock`.
pub open spec fn minted(clock: Seq<u64>) -> (u64, u64)
    decreases clock.len(),
{
    if clock.len() == 0 {
        (0, 0)
    } else {
        let (last, seq) = minted(clock.drop_last());
        if last == clock.last() {
            (last, vstd::wrapping::u64_specs::wrapping_add(seq, 1))
        } else {
            (clock.last(), 0)
        }
    }
}

/// The ids that one mint gives out while the clock does not go back are all
/// different, as long as they are fewer than 64 bits can count.
pub proof fn law_new_ids_are_unique(clock: Seq<u64>, i: int, j: int)
    requires
        0 < i < j <= clock.len() < 0xffff_ffff_ffff_ffff,
        forall|a: int, b: int| 0 <= a < b < clock.len() ==> #[trigger] clock[a] <= #[trigger] clock[b],
    ensures
        ({
            let first = minted(clock.take(i));
            let second = minted(clock.take(j));
            id_text(first.0, first.1) != id_text(second.0, second.1)
        }),
{
    lemma_minted_grows(clock, i, j);
    let first = minted(clock.take(i));
    let second = minted(clock.take(j));
    law_ids_differ(first.0, first.1, second.0, second.1);
}

proof fn lemma_minted_bound(clock: Seq<u64>, i: int)
    requires
        0 <= i <= clock.len() < 0xffff_ffff_ffff_ffff,
    ensures
        minted(clock.take(i)).1 <= i,
        i > 0 ==> minted(clock.take(i)).0 == clock[i - 1],
    decreases i,
{
    if i > 0 {
        lemma_minted_bound(clock, i - 1);
        assert(clock.take(i).drop_last() =~= clock.take(i - 1));
    } else {
        assert(clock.take(0) =~= Seq::empty());
    }
}

proof fn lemma_minted_grows(clock: Seq<u64>, i: int, j: int)
    requires
        0 < i < j <= clock.len() < 0xffff_ffff_ffff_ffff,
        forall|a: int, b: int| 0 <= a < b < clock.len() ==> #[trigger] clock[a] <= #[trigger] clock[b],
    ensures
        ({
            let first = minted(clock.take(i));
            let second = minted(clock.take(j));
            first.0 < second.0 || (first.0 == second.0 && first.1 < second.1)
        }),
    decreases j - i,
{
    lemma_minted_bound(clock, i);
    lemma_minted_bound(clock, j);
    lemma_minted_bound(clock, j - 1);
    assert(clock.take(j).drop_last() =~= clock.take(j - 1));
    assert(clock[i - 1] <= clock[j - 1]);
    if i < j - 1 {
        lemma_minted_grows(clock, i, j - 1);
        assert(clock[j - 2] <= clock[j - 1]);
    }
}

/// A title: on one line, and cut behind an ellipsis where it is long.
pub open spec fn title_of(s: Seq<char>) -> Seq<char> {
    let one_line = text::collapsed(s);
    if one_line.len() <= MAX_TITLE_CHARS {
        one_line
    } else {
        text::trim_end(one_line.take(MAX_TITLE_CHARS as int)).push('…')
    }
}

/// A title takes at most one character more than the limit, the ellipsis.
pub proof fn law_titles_are_bounded(s: Seq<char>)
    ensures
        title_of(s).len() <= MAX_TITLE_CHARS + 1,
{
    lemma_trim_end_len(text::collapsed(s).take(MAX_TITLE_CHARS as int));
}

proof fn lemma_trim_end_len(s: Seq<char>)
    ensures
        text::trim_end(s).len() <= s.len(),
    decreases s.len(),
{
    if s.len() > 0 && text::is_space(s.last()) {
        lemma_trim_end_len(s.drop_last());
    }
}

/// `text` as a title.
pub fn truncate_title(text: &str) -> (r: String)
    ensures
        r@ == title_of(text@),
{
    let one_line = text::collapse(text);
    let cs = text::chars_of(one_line.as_str());
    if cs.len() <= MAX_TITLE_CHARS {
        return one_line;
    }
    let cut = text::slice_of(cs.as_slice(), 0, MAX_TITLE_CHARS);
    assert(cut@ =~= one_line@.take(MAX_TITLE_CHARS as int));
    let mut out = text::trimmed_end(cut.as_str());
    out.push('…');
    out
}

/// The title that a conversation is shown under: its own, else one made from the
/// first message of the user, else a placeholder.
pub open spec fn shown_title(title: Option<Seq<char>>, messages: Seq<MessageModel>) -> Seq<char> {
    match title {
        Some(t) => t,
        None => match compact::user_from(messages, 0) {
            Some(i) => match messages[i] {
                MessageModel::User { content } => title_of(content),
                _ => "New chat"@,
            },
            None => "New chat"@,
        },
    }
}

/// The messages that a transcript holds.
pub open spec fn messages_in(entries: Seq<EntryModel>) -> Seq<MessageModel>
    decreases entries.len(),
{
    if entries.len() == 0 {
        Seq::empty()
    } else {
        match entries.last() {
            EntryModel::Message(m) => messages_in(entries.drop_last()).push(m),
            _ => messages_in(entries.drop_last()),
        }
    }
}

/// The last title in a transcript.
pub open spec fn title_in(entries: Seq<EntryModel>) -> Option<Seq<char>>
    decreases entries.len(),
{
    if entries.len() == 0 {
        None
    } else {
        match entries.last() {
            EntryModel::Title { text } => Some(text),
            _ => title_in(entries.drop_last()),
        }
    }
}

/// The last record of a compaction in a transcript.
pub open spec fn compaction_in(entries: Seq<EntryModel>) -> Option<EntryModel>
    decreases entries.len(),
{
    if entries.len() == 0 {
        None
    } else {
        match entries.last() {
            EntryModel::Compaction { .. } => Some(entries.last()),
            _ => compaction_in(entries.drop_last()),
        }
    }
}

/// What is on record of a compaction.
#[derive(Debug, PartialEq)]
pub struct Compaction {
    pub summary: String,
    pub dropped: usize,
    pub tokens_before: u32,
}

impl Compaction {
    pub open spec fn view(&self) -> EntryModel {
        EntryModel::Compaction {
            summary: self.summary@,
            dropped: self.dropped,
            tokens_before: self.tokens_before,
        }
    }

    /// The entry that records it.
    pub fn to_entry(&self) -> (r: Entry)
        ensures
            r@ == self@,
    {
        Session::record_compaction(self.summary.as_str(), self.dropped, self.tokens_before)
    }
}

/// The entry of a record, where there is one.
pub open spec fn record_of(c: Option<Compaction>) -> Option<EntryModel> {
    match c {
        Some(c) => Some(c@),
        None => None,
    }
}

/// What a transcript is replayed to.
pub struct Replayed {
    pub messages: Vec<Message>,
    pub title: Option<String>,
    pub compaction: Option<Compaction>,
}

/// Replays the entries of a transcript.
pub fn replay_entries(entries: Vec<Entry>) -> (r: Replayed)
    ensures
        types::messages(r.messages@) == messages_in(entry_models(entries@)),
        text::opt(r.title) == title_in(entry_models(entries@)),
        record_of(r.compaction) == compaction_in(entry_models(entries@)),
{
    let ghost all = entry_models(entries@);
    let mut messages: Vec<Message> = Vec::new();
    let mut title: Option<String> = None;
    let mut compaction: Option<Compaction> = None;
    let mut rest = entries;
    let ghost mut k: int = 0;
    assert(all.take(0) =~= Seq::empty());
    assert(types::messages(messages@) =~= Seq::empty());
    assert(all.skip(0) =~= all);
    while rest.len() > 0
        invariant
            0 <= k <= all.len(),
            entry_models(rest@) == all.skip(k),
            types::messages(messages@) == messages_in(all.take(k)),
            text::opt(title) == title_in(all.take(k)),
            record_of(compaction) == compaction_in(all.take(k)),
        decreases rest@.len(),
    {
        assert(entry_models(rest@).len() == all.len() - k);
        assert(entry_models(rest@)[0] == all[k]);
        let ghost before = rest@;
        let ghost had = messages@;
        let e = rest.remove(0);
        assert(entry_models(rest@) =~= all.skip(k + 1)) by {
            assert(entry_models(rest@) =~= entry_models(before).skip(1));
            assert(all.skip(k).skip(1) =~= all.skip(k + 1));
        }
        assert(all.take(k + 1).drop_last() =~= all.take(k));
        assert(all.take(k + 1).last() == e@);
        match e {
            Entry::Message(m) => {
                messages.push(m);
                assert(types::messages(messages@) =~= types::messages(had).push(m@));
            },
            Entry::Title { text } => {
                title = Some(text);
            },
            Entry::Compaction { summary, dropped, tokens_before } => {
                compaction = Some(Compaction { summary, dropped, tokens_before });
            },
        }
        proof {
            k = k + 1;
        }
    }
    assert(entry_models(rest@).len() == 0);
    assert(all.take(k) =~= all);
    Replayed { messages, title, compaction }
}

/// What the entries `es` hold.
pub open spec fn entry_models(es: Seq<Entry>) -> Seq<EntryModel> {
    Seq::new(es.len(), |i: int| es[i]@)
}

/// The entries of a transcript. A line that is torn, by a crash in the middle of
/// writing it, is passed over: the rest of the history is still good.
pub fn read_entries(body: &str) -> (r: Vec<Entry>)
    ensures
        entry_models(r@) == transcript::entries_in(text::lines(body@)),
{
    let lines = text::lines_of(body);
    let ghost all = text::lines(body@);
    let mut out: Vec<Entry> = Vec::new();
    let mut i: usize = 0;
    assert(all.take(0) =~= Seq::empty());
    assert(entry_models(out@) =~= Seq::empty());
    while i < lines.len()
        invariant
            i <= lines@.len(),
            text::views(lines@) == all,
            entry_models(out@) == transcript::entries_in(all.take(i as int)),
        decreases lines@.len() - i,
    {
        assert(all.take(i + 1).drop_last() =~= all.take(i as int));
        assert(all.take(i + 1).last() == lines@[i as int]@);
        let ghost before = out@;
        if let Some(e) = Entry::from_line(lines[i].as_str()) {
            out.push(e);
            assert(entry_models(out@) =~= entry_models(before).push(e@));
        }
        i += 1;
    }
    assert(all.take(i as int) =~= all);
    out
}

/// Replays a transcript: its messages, its last title and its last compaction.
pub fn replay(body: &str) -> (r: Replayed)
    ensures
        types::messages(r.messages@) == messages_in(transcript::entries_in(text::lines(body@))),
        text::opt(r.title) == title_in(transcript::entries_in(text::lines(body@))),
        record_of(r.compaction) == compaction_in(transcript::entries_in(text::lines(body@))),
{
    let entries = read_entries(body);
    replay_entries(entries)
}

/// Why a conversation cannot be opened or deleted.
#[derive(Debug, PartialEq)]
pub enum SessionError {
    InvalidId,
    NoSession(String),
}

impl SessionError {
    pub fn message(&self) -> (r: String)
        ensures
            r@ == (match self {
                SessionError::InvalidId => "invalid session id"@,
                SessionError::NoSession(id) => "no session "@ + id@,
            }),
    {
        match self {
            SessionError::InvalidId => "invalid session id".to_owned(),
            SessionError::NoSession(id) => {
                let mut out = "no session ".to_owned();
                out.push_str(id.as_str());
                out
            },
        }
    }
}

/// A conversation that is open. The caller writes the lines of the entries that
/// its operations stand for.
pub struct Session {
    pub id: String,
    pub messages: Vec<Message>,
    pub title: Option<String>,
    /// What the transcript has on record of its last compaction.
    pub compaction: Option<Compaction>,
}

/// A conversation: what an open one holds, and what its transcript is replayed to.
pub struct ConversationModel {
    pub messages: Seq<MessageModel>,
    pub title: Option<Seq<char>>,
    pub compaction: Option<EntryModel>,
}

/// What the entries of a transcript are replayed to.
pub open spec fn replayed(entries: Seq<EntryModel>) -> ConversationModel {
    ConversationModel {
        messages: messages_in(entries),
        title: title_in(entries),
        compaction: compaction_in(entries),
    }
}

/// What may be done to a conversation.
pub enum Change {
    Append(MessageModel),
    SetTitle(Seq<char>),
    Rewrite(Seq<MessageModel>),
    RewindToLastUser,
    Compact { record: EntryModel, kept: Seq<MessageModel> },
}

impl ConversationModel {
    /// The conversation after a change.
    pub open spec fn after(self, change: Change) -> ConversationModel {
        match change {
            Change::Append(m) => ConversationModel { messages: self.messages.push(m), ..self },
            Change::SetTitle(text) => ConversationModel { title: Some(title_of(text)), ..self },
            Change::Rewrite(ms) => ConversationModel { messages: ms, ..self },
            Change::RewindToLastUser => match compact::user_before(
                self.messages,
                self.messages.len() as int,
            ) {
                Some(at) => ConversationModel { messages: self.messages.take(at), ..self },
                None => self,
            },
            Change::Compact { record, kept } => ConversationModel {
                messages: kept,
                compaction: Some(record),
                ..self
            },
        }
    }

    /// The entries that a change is stored by, and whether they take the place of
    /// the transcript instead of being added to it.
    pub open spec fn stores(self, change: Change) -> (bool, Seq<EntryModel>) {
        let after = self.after(change);
        match change {
            Change::Append(m) => (false, seq![EntryModel::Message(m)]),
            Change::SetTitle(text) => (false, seq![EntryModel::Title { text: title_of(text) }]),
            Change::RewindToLastUser if compact::user_before(
                self.messages,
                self.messages.len() as int,
            ) is None => (false, Seq::empty()),
            _ => (true, rewrite_entries(after.title, after.compaction, after.messages)),
        }
    }

    /// The text of the transcript after a change, where it was `body`.
    pub open spec fn transcript_after(self, body: Seq<char>, change: Change) -> Seq<char> {
        let (instead, entries) = self.stores(change);
        if instead {
            text::framed(entry_lines(entries))
        } else {
            body + text::framed(entry_lines(entries))
        }
    }
}

/// A conversation and the text of its transcript after several changes.
pub open spec fn after_changes(
    start: ConversationModel,
    body: Seq<char>,
    changes: Seq<Change>,
) -> (ConversationModel, Seq<char>)
    decreases changes.len(),
{
    if changes.len() == 0 {
        (start, body)
    } else {
        let (c, b) = after_changes(start, body, changes.drop_last());
        (c.after(changes.last()), c.transcript_after(b, changes.last()))
    }
}

/// Every entry that is written on the way is read back from its line, and a
/// compaction is recorded by a record of one.
pub open spec fn all_read_back(
    start: ConversationModel,
    body: Seq<char>,
    changes: Seq<Change>,
) -> bool
    decreases changes.len(),
{
    changes.len() > 0 ==> {
        let (c, _) = after_changes(start, body, changes.drop_last());
        &&& all_read_back(start, body, changes.drop_last())
        &&& changes.last() matches Change::Compact { record, .. } ==> record is Compaction
        &&& forall|i: int|
            0 <= i < c.stores(changes.last()).1.len() ==> transcript::reads_back(
                #[trigger] c.stores(changes.last()).1[i],
            )
    }
}

impl Session {
    /// The conversation that is open.
    pub open spec fn conversation(&self) -> ConversationModel {
        ConversationModel {
            messages: types::messages(self.messages@),
            title: text::opt(self.title),
            compaction: record_of(self.compaction),
        }
    }

    /// The messages, the title and the record of a compaction are those that the
    /// transcript `entries` holds.
    pub open spec fn stored_as(&self, entries: Seq<EntryModel>) -> bool {
        self.conversation() == replayed(entries)
    }

    /// Opens `id`, given the text of its transcript where there is one.
    pub fn open(id: &str, body: Option<&str>) -> (r: Result<Session, SessionError>)
        ensures
            match r {
                Ok(s) => {
                    &&& valid_id(id@)
                    &&& s.id@ == id@
                    &&& s.stored_as(
                        match body {
                            Some(b) => transcript::entries_in(text::lines(b@)),
                            None => Seq::empty(),
                        },
                    )
                },
                Err(e) => !valid_id(id@) && e is InvalidId,
            },
    {
        if !is_valid_id(id) {
            return Err(SessionError::InvalidId);
        }
        match body {
            Some(b) => {
                let replayed = replay(b);
                Ok(
                    Session {
                        id: id.to_owned(),
                        messages: replayed.messages,
                        title: replayed.title,
                        compaction: replayed.compaction,
                    },
                )
            },
            None => {
                let messages: Vec<Message> = Vec::new();
                assert(types::messages(messages@) =~= Seq::empty());
                Ok(Session { id: id.to_owned(), messages, title: None, compaction: None })
            },
        }
    }

    /// Nothing was said and no title was given yet.
    pub fn is_untitled(&self) -> (r: bool)
        ensures
            r == (self.title is None && self.messages@.len() == 0),
    {
        self.title.is_none() && self.messages.len() == 0
    }

    /// The title for display. Making one costs nothing; asking the model for one
    /// would cost a round trip.
    pub fn display_title(&self) -> (r: String)
        ensures
            r@ == shown_title(text::opt(self.title), types::messages(self.messages@)),
    {
        if let Some(t) = &self.title {
            return t.clone();
        }
        let ghost all = types::messages(self.messages@);
        let mut i: usize = 0;
        while i < self.messages.len()
            invariant
                i <= self.messages@.len(),
                all == types::messages(self.messages@),
                compact::user_from(all, 0) == compact::user_from(all, i as int),
                self.title is None,
            decreases self.messages@.len() - i,
        {
            assert(all[i as int] == self.messages@[i as int]@);
            if let Message::User { content } = &self.messages[i] {
                return truncate_title(content.as_str());
            }
            i += 1;
        }
        "New chat".to_owned()
    }

    /// The entry that renames the conversation.
    pub fn title_entry(text: &str) -> (r: Entry)
        ensures
            r@ == (EntryModel::Title { text: title_of(text@) }),
    {
        Entry::Title { text: truncate_title(text) }
    }

    /// The entry that a turn gives a conversation its title by: what the user said
    /// first, where there is no title yet and nothing was said before.
    pub fn first_title(&self, input: &str) -> (r: Option<Entry>)
        ensures
            match r {
                Some(e) => {
                    &&& self.title is None && self.messages@.len() == 0
                    &&& e@ == (EntryModel::Title { text: title_of(input@) })
                },
                None => self.title is Some || self.messages@.len() > 0,
            },
    {
        if self.is_untitled() {
            Some(Session::title_entry(input))
        } else {
            None
        }
    }

    /// Renames the conversation, once its entry is written.
    pub fn set_title(&mut self, text: &str)
        ensures
            text::opt(final(self).title) == Some(title_of(text@)),
            final(self).id == old(self).id,
            final(self).messages == old(self).messages,
            final(self).compaction == old(self).compaction,
            final(self).conversation() == old(self).conversation().after(Change::SetTitle(text@)),
            forall|entries: Seq<EntryModel>|
                old(self).stored_as(entries) ==> #[trigger] final(self).stored_as(
                    entries.push(EntryModel::Title { text: title_of(text@) }),
                ),
    {
        let title = truncate_title(text);
        self.title = Some(title);
        proof {
            assert forall|entries: Seq<EntryModel>|
                old(self).stored_as(entries) implies #[trigger] self.stored_as(
                entries.push(EntryModel::Title { text: title_of(text@) }),
            ) by {
                let e = EntryModel::Title { text: title_of(text@) };
                assert(entries.push(e).drop_last() =~= entries);
            }
        }
    }

    /// Adds a message, once its entry is written.
    pub fn append(&mut self, message: Message)
        ensures
            types::messages(final(self).messages@) == types::messages(
                old(self).messages@,
            ).push(message@),
            final(self).id == old(self).id,
            final(self).title == old(self).title,
            final(self).compaction == old(self).compaction,
            final(self).conversation() == old(self).conversation().after(
                Change::Append(message@),
            ),
            forall|entries: Seq<EntryModel>|
                old(self).stored_as(entries) ==> #[trigger] final(self).stored_as(
                    entries.push(EntryModel::Message(message@)),
                ),
    {
        let ghost m = message@;
        self.messages.push(message);
        assert(types::messages(self.messages@) =~= types::messages(old(self).messages@).push(m));
        proof {
            assert forall|entries: Seq<EntryModel>|
                old(self).stored_as(entries) implies #[trigger] self.stored_as(
                entries.push(EntryModel::Message(m)),
            ) by {
                assert(entries.push(EntryModel::Message(m)).drop_last() =~= entries);
            }
        }
    }

    /// The entry that records a compaction.
    pub fn record_compaction(summary: &str, dropped: usize, tokens_before: u32) -> (r: Entry)
        ensures
            r@ == (EntryModel::Compaction { summary: summary@, dropped, tokens_before }),
    {
        Entry::Compaction { summary: summary.to_owned(), dropped, tokens_before }
    }

    /// The transcript as a whole, for `messages` under this title. The title and the
    /// record of a compaction are entries like any other, and are not lost.
    pub fn rewritten(&self, messages: &Vec<Message>) -> (r: Vec<Entry>)
        ensures
            entry_models(r@) == rewrite_entries(
                text::opt(self.title),
                record_of(self.compaction),
                types::messages(messages@),
            ),
    {
        let record = match &self.compaction {
            Some(c) => Some(c.to_entry()),
            None => None,
        };
        whole_transcript(&self.title, record, messages)
    }

    /// The transcript as a whole after a compaction to `kept`: the title, the record
    /// of the compaction, and the messages that are left. The record tells a
    /// compacted transcript from a short one.
    pub fn compacted(
        &self,
        summary: &str,
        dropped: usize,
        tokens_before: u32,
        kept: &Vec<Message>,
    ) -> (r: Vec<Entry>)
        ensures
            entry_models(r@) == rewrite_entries(
                text::opt(self.title),
                Some(EntryModel::Compaction { summary: summary@, dropped, tokens_before }),
                types::messages(kept@),
            ),
    {
        let record = Session::record_compaction(summary, dropped, tokens_before);
        whole_transcript(&self.title, Some(record), kept)
    }

    /// Replaces the messages, once the transcript is rewritten.
    pub fn rewrite(&mut self, messages: Vec<Message>)
        ensures
            final(self).messages@ == messages@,
            final(self).id == old(self).id,
            final(self).title == old(self).title,
            final(self).compaction == old(self).compaction,
            final(self).conversation() == old(self).conversation().after(
                Change::Rewrite(types::messages(messages@)),
            ),
            final(self).stored_as(
                rewrite_entries(
                    text::opt(old(self).title),
                    record_of(old(self).compaction),
                    types::messages(messages@),
                ),
            ),
    {
        proof {
            law_rewrite_keeps_everything(
                text::opt(self.title),
                record_of(self.compaction),
                types::messages(messages@),
            );
        }
        self.messages = messages;
    }

    /// Takes in a compaction, once the transcript is rewritten.
    pub fn compact(
        &mut self,
        summary: &str,
        dropped: usize,
        tokens_before: u32,
        kept: Vec<Message>,
    )
        ensures
            final(self).messages@ == kept@,
            final(self).id == old(self).id,
            final(self).title == old(self).title,
            record_of(final(self).compaction) == Some(
                EntryModel::Compaction { summary: summary@, dropped, tokens_before },
            ),
            final(self).conversation() == old(self).conversation().after(
                (Change::Compact {
                    record: EntryModel::Compaction { summary: summary@, dropped, tokens_before },
                    kept: types::messages(kept@),
                }),
            ),
            final(self).stored_as(
                rewrite_entries(
                    text::opt(old(self).title),
                    Some(EntryModel::Compaction { summary: summary@, dropped, tokens_before }),
                    types::messages(kept@),
                ),
            ),
    {
        proof {
            law_rewrite_keeps_everything(
                text::opt(self.title),
                Some(EntryModel::Compaction { summary: summary@, dropped, tokens_before }),
                types::messages(kept@),
            );
        }
        self.compaction = Some(Compaction { summary: summary.to_owned(), dropped, tokens_before });
        self.messages = kept;
    }

    /// Where the last message of the user stands, and what it says: what is to be
    /// asked again. Everything from there on is to be dropped, so that no tool
    /// result is left without its call.
    pub fn last_user(&self) -> (r: Option<(usize, String)>)
        ensures
            match r {
                Some((at, content)) => {
                    &&& compact::user_before(
                        types::messages(self.messages@),
                        self.messages@.len() as int,
                    ) == Some(at as int)
                    &&& at < self.messages@.len()
                    &&& types::messages(self.messages@)[at as int] == (MessageModel::User {
                        content: content@,
                    })
                },
                None => compact::user_before(
                    types::messages(self.messages@),
                    self.messages@.len() as int,
                ) is None,
            },
    {
        let ghost all = types::messages(self.messages@);
        let mut k: usize = self.messages.len();
        while k > 0
            invariant
                k <= self.messages@.len(),
                all == types::messages(self.messages@),
                compact::user_before(all, all.len() as int) == compact::user_before(
                    all,
                    k as int,
                ),
            decreases k,
        {
            assert(all[k - 1] == self.messages@[k - 1]@);
            if let Message::User { content } = &self.messages[k - 1] {
                return Some((k - 1, content.clone()));
            }
            k -= 1;
        }
        None
    }

    /// The messages before position `at`.
    pub fn messages_before(&self, at: usize) -> (r: Vec<Message>)
        requires
            at <= self.messages@.len(),
        ensures
            types::messages(r@) == types::messages(self.messages@).take(at as int),
    {
        let mut out: Vec<Message> = Vec::new();
        let mut i: usize = 0;
        while i < at
            invariant
                i <= at <= self.messages@.len(),
                out@.len() == i,
                forall|j: int| 0 <= j < i ==> (#[trigger] out@[j])@ == self.messages@[j]@,
            decreases at - i,
        {
            out.push(self.messages[i].clone());
            i += 1;
        }
        assert(types::messages(out@) =~= types::messages(self.messages@).take(at as int));
        out
    }

    /// What is kept when the last turn of the user is to be run again, and what it
    /// said; nothing where there is no such turn.
    pub fn rewind_to_last_user(&self) -> (r: Option<(Vec<Message>, String)>)
        ensures
            match r {
                Some((kept, content)) => exists|at: int|
                    {
                        &&& #[trigger] is_last_user(types::messages(self.messages@), at)
                        &&& types::messages(kept@) == types::messages(self.messages@).take(at)
                        &&& types::messages(kept@) == self.conversation().after(
                            Change::RewindToLastUser,
                        ).messages
                        &&& types::messages(self.messages@)[at] == (MessageModel::User {
                            content: content@,
                        })
                    },
                None => compact::user_before(
                    types::messages(self.messages@),
                    self.messages@.len() as int,
                ) is None,
            },
    {
        match self.last_user() {
            Some((at, content)) => {
                assert(is_last_user(types::messages(self.messages@), at as int));
                Some((self.messages_before(at), content))
            },
            None => None,
        }
    }

    /// The row that lists the conversation.
    pub open spec fn row(&self, updated_at: u64) -> MetaModel {
        MetaModel {
            id: self.id@,
            title: shown_title(text::opt(self.title), types::messages(self.messages@)),
            updated_at,
            messages: self.messages@.len() as usize,
        }
    }

    /// The row that lists the conversation, given when its transcript changed.
    pub fn meta(&self, updated_at: u64) -> (r: SessionMeta)
        ensures
            r@ == self.row(updated_at),
    {
        SessionMeta {
            id: self.id.clone(),
            title: self.display_title(),
            updated_at,
            messages: self.messages.len(),
        }
    }

    /// Where an oversized tool result is put.
    pub fn spill_path(&self, dir: &str, tool_call_id: &str) -> (r: String)
        ensures
            r@ == spill_file(dir@, self.id@, tool_call_id@),
    {
        let parent = paths::join(dir, "tool-results");
        let mut name = self.id.clone();
        name.push_str("-");
        name.push_str(tool_call_id);
        name.push_str(".txt");
        paths::join(parent.as_str(), name.as_str())
    }

    /// What is kept of a tool result, and where the rest lies: all of it where it
    /// is short; else a preview, with the path of the file where it was `written`.
    /// A disk that says no costs the full output, not the turn.
    pub fn spill_tool_output(
        &self,
        dir: &str,
        tool_call_id: &str,
        body: &str,
        max_inline: usize,
        written: bool,
    ) -> (r: (String, Option<String>))
        ensures
            (r.0@, text::opt(r.1)) == spilled(
                spill_file(dir@, self.id@, tool_call_id@),
                body@,
                max_inline as int,
                written,
            ),
    {
        if !needs_spill(body, max_inline) {
            return (body.to_owned(), None);
        }
        let mut preview = exec::truncate_middle(body, max_inline);
        if !written {
            return (preview, None);
        }
        let path = self.spill_path(dir, tool_call_id);
        preview.push_str("\n\n[full output: ");
        preview.push_str(path.as_str());
        preview.push_str("]");
        (preview, Some(path))
    }

    /// Whether the transcript of `id` is there, given whether its file is: an id
    /// that is not well-formed names none.
    pub fn is_stored(id: &str, file_exists: bool) -> (r: bool)
        ensures
            r == (valid_id(id@) && file_exists),
    {
        is_valid_id(id) && file_exists
    }

    /// Whether `id` may be deleted, given whether its file is there.
    pub fn check_delete(id: &str, file_exists: bool) -> (r: Result<(), SessionError>)
        ensures
            match r {
                Ok(()) => valid_id(id@) && file_exists,
                Err(SessionError::InvalidId) => !valid_id(id@),
                Err(SessionError::NoSession(s)) => valid_id(id@) && !file_exists && s@ == id@,
            },
    {
        if !is_valid_id(id) {
            return Err(SessionError::InvalidId);
        }
        if !file_exists {
            return Err(SessionError::NoSession(id.to_owned()));
        }
        Ok(())
    }
}

/// The id whose transcript a file of this name is.
pub open spec fn id_in(name: Seq<char>) -> Option<Seq<char>> {
    let n = name.len() - ".jsonl"@.len();
    if n >= 0 && name.skip(n) == ".jsonl"@ {
        Some(name.take(n))
    } else {
        None
    }
}

/// The id whose transcript a file of this name is.
pub fn transcript_id(name: &str) -> (r: Option<String>)
    ensures
        text::opt(r) == id_in(name@),
{
    let cs = text::chars_of(name);
    let end = text::chars_of(".jsonl");
    if cs.len() < end.len() {
        return None;
    }
    let n = cs.len() - end.len();
    if text::stands_at(cs.as_slice(), end.as_slice(), n) {
        assert(name@.subrange(n as int, name@.len() as int) =~= name@.skip(n as int));
        let id = text::slice_of(cs.as_slice(), 0, n);
        assert(id@ =~= name@.take(n as int));
        Some(id)
    } else {
        assert(name@.subrange(n as int, name@.len() as int) =~= name@.skip(n as int));
        None
    }
}

/// `at` is the last message of the user.
pub open spec fn is_last_user(ms: Seq<MessageModel>, at: int) -> bool {
    &&& 0 <= at < ms.len()
    &&& compact::user_before(ms, ms.len() as int) == Some(at)
}

/// Where an oversized tool result is put.
pub open spec fn spill_file(dir: Seq<char>, id: Seq<char>, tool_call_id: Seq<char>) -> Seq<char> {
    paths::joined(paths::joined(dir, "tool-results"@), spill_name(id, tool_call_id))
}

/// What is kept of a tool result, and where the rest lies.
pub open spec fn spilled(
    path: Seq<char>,
    body: Seq<char>,
    max_inline: int,
    written: bool,
) -> (Seq<char>, Option<Seq<char>>) {
    let preview = exec::truncated_middle(body, max_inline);
    if text::byte_len(body) <= max_inline {
        (body, None)
    } else if written {
        (preview + "\n\n[full output: "@ + path + "]"@, Some(path))
    } else {
        (preview, None)
    }
}

/// Whether a tool result is too long to be kept whole.
pub fn needs_spill(body: &str, max_inline: usize) -> (r: bool)
    ensures
        r == (text::byte_len(body@) > max_inline),
{
    text::byte_count(body) > max_inline
}

/// What an oversized tool result of a conversation is called.
pub open spec fn spill_name(id: Seq<char>, tool_call_id: Seq<char>) -> Seq<char> {
    id + "-"@ + tool_call_id + ".txt"@
}

/// The file `name` reads as a spilled result of `id`.
pub open spec fn reads_as(name: Seq<char>, id: Seq<char>) -> bool {
    (id + "-"@).is_prefix_of(name)
}

/// The file `name` belongs to `id`: it reads as one of `id`, and as one of no
/// other conversation whose id is longer.
pub open spec fn spilled_for(name: Seq<char>, id: Seq<char>, others: Seq<Seq<char>>) -> bool {
    &&& reads_as(name, id)
    &&& forall|i: int|
        0 <= i < others.len() && (#[trigger] others[i]).len() > id.len() ==> !reads_as(
            name,
            others[i],
        )
}

fn has_spill_prefix(name: &str, id: &str) -> (r: bool)
    ensures
        r == reads_as(name@, id@),
{
    let mut prefix = id.to_owned();
    prefix.push_str("-");
    text::str_starts_with(name, prefix.as_str())
}

/// Whether a file among the spilled results belongs to `id`, given the ids of the
/// other conversations. An id may hold a dash, so `s1-x-c.txt` reads as a result of
/// `s1` too where it is one of `s1-x`.
pub fn is_spilled_for(name: &str, id: &str, others: &Vec<String>) -> (r: bool)
    ensures
        r == spilled_for(name@, id@, text::views(others@)),
{
    if !has_spill_prefix(name, id) {
        return false;
    }
    let own = text::char_count(id);
    let ghost ids = text::views(others@);
    let mut i: usize = 0;
    while i < others.len()
        invariant
            i <= others@.len(),
            ids == text::views(others@),
            own == id@.len(),
            reads_as(name@, id@),
            forall|j: int|
                0 <= j < i && (#[trigger] ids[j]).len() > id@.len() ==> !reads_as(name@, ids[j]),
        decreases others@.len() - i,
    {
        assert(ids[i as int] == others@[i as int]@);
        if text::char_count(others[i].as_str()) > own && has_spill_prefix(
            name,
            others[i].as_str(),
        ) {
            return false;
        }
        i += 1;
    }
    true
}

/// Removing a conversation leaves the spilled results of every other one. Left out
/// is a result of `other` whose name reads as one of `id` because the call id
/// spells out the rest of a longer `id`.
pub proof fn law_other_spills_stay(
    id: Seq<char>,
    other: Seq<char>,
    tool_call_id: Seq<char>,
    others: Seq<Seq<char>>,
)
    requires
        others.contains(other),
        other != id,
        other.len() < id.len() ==> !reads_as(spill_name(other, tool_call_id), id),
    ensures
        !spilled_for(spill_name(other, tool_call_id), id, others),
{
    let name = spill_name(other, tool_call_id);
    let i = choose|i: int| 0 <= i < others.len() && others[i] == other;
    assert(reads_as(name, other)) by {
        assert(other + "-"@ =~= name.take((other + "-"@).len() as int));
    }
    if other.len() > id.len() {
        assert(!(others[i].len() > id.len() ==> !reads_as(name, others[i])));
    } else if other.len() == id.len() && reads_as(name, id) {
        assert forall|k: int| 0 <= k < id.len() implies id[k] == other[k] by {
            assert((id + "-"@)[k] == name[k]);
            assert((other + "-"@)[k] == name[k]);
        }
        assert(id =~= other);
    }
}

/// Removing a conversation takes its own spilled results along, where the name of
/// a result does not read as one of a conversation with a longer id.
pub proof fn law_own_spills_go(
    id: Seq<char>,
    tool_call_id: Seq<char>,
    others: Seq<Seq<char>>,
)
    requires
        forall|i: int|
            0 <= i < others.len() && (#[trigger] others[i]).len() > id.len() ==> !reads_as(
                spill_name(id, tool_call_id),
                others[i],
            ),
    ensures
        spilled_for(spill_name(id, tool_call_id), id, others),
{
    let name = spill_name(id, tool_call_id);
    assert(id + "-"@ =~= name.take((id + "-"@).len() as int));
}

/// A title as entries.
pub open spec fn title_entries(title: Option<Seq<char>>) -> Seq<EntryModel> {
    match title {
        Some(text) => seq![EntryModel::Title { text }],
        None => Seq::empty(),
    }
}

/// Messages as entries.
pub open spec fn message_entries(ms: Seq<MessageModel>) -> Seq<EntryModel> {
    Seq::new(ms.len(), |i: int| EntryModel::Message(ms[i]))
}

/// A record of a compaction as entries.
pub open spec fn record_entries(compaction: Option<EntryModel>) -> Seq<EntryModel> {
    match compaction {
        Some(e) => seq![e],
        None => Seq::empty(),
    }
}

/// The transcript of a conversation as a whole.
pub open spec fn rewrite_entries(
    title: Option<Seq<char>>,
    compaction: Option<EntryModel>,
    messages: Seq<MessageModel>,
) -> Seq<EntryModel> {
    title_entries(title) + record_entries(compaction) + message_entries(messages)
}

spec fn entry_of(e: Option<Entry>) -> Option<EntryModel> {
    match e {
        Some(e) => Some(e@),
        None => None,
    }
}

fn whole_transcript(
    title: &Option<String>,
    record: Option<Entry>,
    messages: &Vec<Message>,
) -> (r: Vec<Entry>)
    ensures
        entry_models(r@) == rewrite_entries(
            text::opt(*title),
            entry_of(record),
            types::messages(messages@),
        ),
{
    let mut out: Vec<Entry> = Vec::new();
    if let Some(t) = title {
        out.push(Entry::Title { text: t.clone() });
    }
    assert(entry_models(out@) =~= title_entries(text::opt(*title)));
    let ghost kept = entry_of(record);
    let ghost had = out@;
    if let Some(e) = record {
        out.push(e);
        assert(entry_models(out@) =~= entry_models(had).push(e@));
    }
    let ghost head = title_entries(text::opt(*title)) + record_entries(kept);
    let ghost all = types::messages(messages@);
    assert(entry_models(out@) =~= head);
    let mut i: usize = 0;
    assert(head + message_entries(all.take(0)) =~= head);
    while i < messages.len()
        invariant
            i <= messages@.len(),
            all == types::messages(messages@),
            entry_models(out@) == head + message_entries(all.take(i as int)),
        decreases messages@.len() - i,
    {
        let ghost before = out@;
        let ghost m = messages@[i as int]@;
        out.push(Entry::Message(messages[i].clone()));
        assert(entry_models(out@) =~= entry_models(before).push(EntryModel::Message(m)));
        assert(message_entries(all.take(i + 1)) =~= message_entries(all.take(i as int)).push(
            EntryModel::Message(m),
        ));
        i += 1;
    }
    assert(all.take(i as int) =~= all);
    out
}

/// Messages behind other entries are replayed behind what those hold.
proof fn lemma_messages_behind(head: Seq<EntryModel>, messages: Seq<MessageModel>)
    ensures
        messages_in(head + message_entries(messages)) == messages_in(head) + messages,
        title_in(head + message_entries(messages)) == title_in(head),
        compaction_in(head + message_entries(messages)) == compaction_in(head),
    decreases messages.len(),
{
    let all = head + message_entries(messages);
    if messages.len() == 0 {
        assert(all =~= head);
        assert(messages_in(head) + messages =~= messages_in(head));
    } else {
        lemma_messages_behind(head, messages.drop_last());
        assert(all.drop_last() =~= head + message_entries(messages.drop_last()));
        assert(all.last() == EntryModel::Message(messages.last()));
        assert((messages_in(head) + messages.drop_last()).push(messages.last()) =~= messages_in(
            head,
        ) + messages);
    }
}

/// A transcript that was rewritten, by a compaction or to run a turn again, is
/// replayed to the same title, the same record of a compaction and the messages
/// that it was given.
pub proof fn law_rewrite_keeps_everything(
    title: Option<Seq<char>>,
    compaction: Option<EntryModel>,
    messages: Seq<MessageModel>,
)
    requires
        compaction is Some ==> compaction->0 is Compaction,
    ensures
        messages_in(rewrite_entries(title, compaction, messages)) == messages,
        title_in(rewrite_entries(title, compaction, messages)) == title,
        compaction_in(rewrite_entries(title, compaction, messages)) == compaction,
{
    reveal_with_fuel(messages_in, 3);
    reveal_with_fuel(title_in, 3);
    reveal_with_fuel(compaction_in, 3);
    let first = title_entries(title);
    let head = first + record_entries(compaction);
    lemma_messages_behind(head, messages);
    if title is Some {
        assert(first.drop_last() =~= Seq::empty());
    }
    if compaction is Some {
        assert(head.drop_last() =~= first);
    } else {
        assert(head =~= first);
    }
    assert(messages_in(head) =~= Seq::empty());
    assert(messages_in(head) + messages =~= messages);
}

/// The lines that store entries.
pub open spec fn entry_lines(entries: Seq<EntryModel>) -> Seq<Seq<char>> {
    Seq::new(entries.len(), |i: int| transcript::line_of(entries[i]))
}

/// The text of a transcript that holds `entries` and nothing else.
pub fn transcript_text(entries: &Vec<Entry>) -> (r: String)
    ensures
        r@ == text::framed(entry_lines(entry_models(entries@))),
        forall|i: int|
            0 <= i < entries@.len() && transcript::plain(entries@[i]@) ==> transcript::storable(
                #[trigger] entries@[i]@,
            ),
        (forall|i: int| 0 <= i < entries@.len() ==> transcript::storable(#[trigger] entries@[i]@))
            ==> transcript::entries_in(text::lines(r@)) == entry_models(entries@),
        r@.len() == 0 || r@.last() == '\n',
{
    let ghost all = entry_models(entries@);
    let mut out = String::new();
    let mut i: usize = 0;
    assert(all.take(0) =~= Seq::empty());
    assert(entry_lines(all.take(0)) =~= Seq::empty());
    while i < entries.len()
        invariant
            i <= entries@.len(),
            all == entry_models(entries@),
            out@ == text::framed(entry_lines(all.take(i as int))),
            forall|k: int|
                0 <= k < i && transcript::plain(entries@[k]@) ==> transcript::storable(
                    #[trigger] entries@[k]@,
                ),
            out@.len() == 0 || out@.last() == '\n',
            (forall|k: int|
                0 <= k < entries@.len() ==> transcript::storable(#[trigger] entries@[k]@))
                ==> transcript::entries_in(text::lines(out@)) == all.take(i as int),
        decreases entries@.len() - i,
    {
        let record = entries[i].to_record();
        proof {
            let before = out@;
            assert(text::lines(before + record@) == text::lines(before + record@));
            let e = entries@[i as int]@;
            assert(all.take(i + 1) =~= all.take(i as int).push(e));
            let line = json::json_text(transcript::entry_json(e));
            assert(entry_lines(all.take(i + 1)) =~= entry_lines(all.take(i as int)).push(line));
            text::lemma_framed_push(entry_lines(all.take(i as int)), line);
        }
        out.push_str(record.as_str());
        i += 1;
    }
    assert(all.take(i as int) =~= all);
    out
}

/// A torn line at the end of a transcript, left by a crash in the middle of
/// writing it, loses nothing of the rest.
pub proof fn law_torn_line_is_passed_over(body: Seq<char>, torn: Seq<char>)
    requires
        body.len() == 0 || body.last() == '\n',
        !torn.contains('\n'),
        transcript::line_entry(torn) is None,
    ensures
        transcript::entries_in(text::lines(body + torn)) == transcript::entries_in(
            text::lines(body),
        ),
{
    if torn.len() == 0 {
        assert(body + torn =~= body);
    } else {
        text::lemma_torn_line(body, torn);
        assert(text::lines(body).push(torn).drop_last() =~= text::lines(body));
    }
}

/// What is missing behind `body` to end its last line. A line that ends in a
/// carriage return would lose it to the line feed alone.
pub open spec fn line_end(body: Seq<char>) -> Seq<char> {
    if body.len() == 0 || body.last() == '\n' {
        Seq::empty()
    } else if body.last() == '\r' {
        "\r\n"@
    } else {
        "\n"@
    }
}

/// What is written behind a transcript before anything else is, so that a torn last
/// line does not swallow the next entry: with it the transcript ends in a whole
/// line, and holds the entries that it held.
pub fn mend_end(body: &str) -> (r: String)
    ensures
        r@ == line_end(body@),
        (body@ + r@).len() == 0 || (body@ + r@).last() == '\n',
        text::lines(body@ + r@) == text::lines(body@),
        transcript::entries_in(text::lines(body@ + r@)) == transcript::entries_in(
            text::lines(body@),
        ),
{
    proof {
        law_mended_end_keeps_lines(body@);
    }
    let chars = text::chars_of(body);
    let n = chars.len();
    if n == 0 || chars[n - 1] == '\n' {
        String::new()
    } else if chars[n - 1] == '\r' {
        "\r\n".to_owned()
    } else {
        "\n".to_owned()
    }
}

/// Ending the last line of a transcript changes none of its lines.
pub proof fn law_mended_end_keeps_lines(body: Seq<char>)
    ensures
        body.len() == 0 || (body + line_end(body)).last() == '\n',
        text::lines(body + line_end(body)) == text::lines(body),
    decreases body.len(),
{
    reveal_strlit("\r\n");
    reveal_strlit("\n");
    let end = line_end(body);
    if end.len() == 0 {
        assert(body + end =~= body);
    } else {
        let (whole, torn) = last_line(body);
        lemma_last_line(body);
        text::lemma_torn_line(whole, torn);
        let written = torn + end.drop_last();
        assert(!written.contains('\n')) by {
            assert forall|k: int| 0 <= k < written.len() implies written[k] != '\n' by {
                if k < torn.len() {
                    assert(torn[k] == written[k]);
                }
            }
        }
        text::lemma_line_appended(whole, written);
        assert(whole + written.push('\n') =~= body + end);
        assert(torn.last() == body.last());
        if torn.last() == '\r' {
            assert(written.drop_last() =~= torn);
            assert(written.last() == '\r');
        } else {
            assert(written =~= torn);
        }
    }
}

/// A text cut behind its last line feed.
spec fn last_line(body: Seq<char>) -> (Seq<char>, Seq<char>)
    decreases body.len(),
{
    if body.len() == 0 || body.last() == '\n' {
        (body, Seq::empty())
    } else {
        let (whole, torn) = last_line(body.drop_last());
        (whole, torn.push(body.last()))
    }
}

proof fn lemma_last_line(body: Seq<char>)
    ensures
        last_line(body).0 + last_line(body).1 == body,
        last_line(body).0.len() == 0 || last_line(body).0.last() == '\n',
        !last_line(body).1.contains('\n'),
        body.len() > 0 && body.last() != '\n' ==> last_line(body).1.len() > 0,
    decreases body.len(),
{
    if body.len() == 0 || body.last() == '\n' {
        assert(body + Seq::<char>::empty() =~= body);
    } else {
        lemma_last_line(body.drop_last());
        let (whole, torn) = last_line(body.drop_last());
        assert(whole + torn.push(body.last()) =~= (whole + torn).push(body.last()));
        assert(body.drop_last().push(body.last()) =~= body);
        assert forall|k: int| 0 <= k < torn.len() + 1 implies torn.push(body.last())[k] != '\n' by {
            if k < torn.len() {
                assert(torn.contains(torn[k]));
            }
        }
    }
}

/// A transcript survives reopening, step by step: where a conversation is what
/// its transcript holds, and its transcript then grows by one entry, the
/// conversation with that entry taken in is what the longer transcript holds.
pub proof fn law_transcript_follows_conversation(
    entries: Seq<EntryModel>,
    messages: Seq<MessageModel>,
    title: Option<Seq<char>>,
    compaction: Option<EntryModel>,
    e: EntryModel,
)
    requires
        messages == messages_in(entries),
        title == title_in(entries),
        compaction == compaction_in(entries),
    ensures
        messages_in(entries.push(e)) == (match e {
            EntryModel::Message(m) => messages.push(m),
            _ => messages,
        }),
        title_in(entries.push(e)) == (match e {
            EntryModel::Title { text } => Some(text),
            _ => title,
        }),
        compaction_in(entries.push(e)) == (match e {
            EntryModel::Compaction { .. } => Some(e),
            _ => compaction,
        }),
{
    assert(entries.push(e).drop_last() =~= entries);
}

proof fn lemma_framed_entries(entries: Seq<EntryModel>)
    requires
        forall|i: int| 0 <= i < entries.len() ==> transcript::reads_back(#[trigger] entries[i]),
    ensures
        transcript::entries_in(text::lines(text::framed(entry_lines(entries)))) == entries,
        entries.len() > 0 ==> text::framed(entry_lines(entries)).len() > 0 && text::framed(
            entry_lines(entries),
        ).last() == '\n',
        entries.len() == 0 ==> text::framed(entry_lines(entries)).len() == 0,
    decreases entries.len(),
{
    if entries.len() == 0 {
        assert(entries =~= Seq::empty());
    } else {
        let front = entries.drop_last();
        let e = entries.last();
        assert forall|i: int| 0 <= i < front.len() implies transcript::reads_back(
            #[trigger] front[i],
        ) by {
            assert(front[i] == entries[i]);
        }
        lemma_framed_entries(front);
        assert(transcript::reads_back(entries[entries.len() - 1]));
        let line = transcript::line_of(e);
        let body = text::framed(entry_lines(front));
        assert(entry_lines(entries) =~= entry_lines(front).push(line));
        text::lemma_framed_push(entry_lines(front), line);
        lemma_entry_added(body, e);
        assert(front.push(e) =~= entries);
    }
}

/// An entry that is added behind a whole line is the one entry more.
proof fn lemma_entry_added(body: Seq<char>, e: EntryModel)
    requires
        body.len() == 0 || body.last() == '\n',
        transcript::reads_back(e),
    ensures
        transcript::entries_in(text::lines(body + transcript::line_of(e).push('\n')))
            == transcript::entries_in(text::lines(body)).push(e),
{
    let line = transcript::line_of(e);
    text::lemma_line_appended(body, line);
    transcript::lemma_reads_back(e);
    assert(text::lines(body).push(line).drop_last() =~= text::lines(body));
}

/// A transcript survives reopening, whatever was done to the conversation: after any
/// messages appended, titles set, rewrites, rewinds and compactions, the text of the
/// transcript is replayed to the conversation as it stands. The entries on the way
/// are to be read back from their lines, which `Entry::to_line` says of all plain
/// ones.
pub proof fn law_transcript_survives_reopening(body: Seq<char>, changes: Seq<Change>)
    requires
        body.len() == 0 || body.last() == '\n',
        all_read_back(
            replayed(transcript::entries_in(text::lines(body))),
            body,
            changes,
        ),
    ensures
        ({
            let start = replayed(transcript::entries_in(text::lines(body)));
            let (now, stored) = after_changes(start, body, changes);
            &&& replayed(transcript::entries_in(text::lines(stored))) == now
            &&& stored.len() == 0 || stored.last() == '\n'
        }),
    decreases changes.len(),
{
    let start = replayed(transcript::entries_in(text::lines(body)));
    if changes.len() > 0 {
        let front = changes.drop_last();
        let change = changes.last();
        law_transcript_survives_reopening(body, front);
        let (before, stored) = after_changes(start, body, front);
        let entries = transcript::entries_in(text::lines(stored));
        let after = before.after(change);
        let (instead, added) = before.stores(change);
        lemma_framed_entries(added);
        lemma_compaction_is_one(entries);
        if instead {
            law_rewrite_keeps_everything(after.title, after.compaction, after.messages);
        } else if added.len() == 0 {
            assert(stored + text::framed(entry_lines(added)) =~= stored);
        } else {
            let e = added[0];
            let line = transcript::line_of(e);
            assert(transcript::reads_back(before.stores(change).1[0]));
            assert(entry_lines(added) =~= seq![line]);
            reveal_with_fuel(text::framed, 2);
            assert(entry_lines(added).skip(1) =~= Seq::empty());
            assert(text::framed(entry_lines(added)) =~= line.push('\n'));
            lemma_entry_added(stored, e);
            law_transcript_follows_conversation(
                entries,
                before.messages,
                before.title,
                before.compaction,
                e,
            );
        }
    }
}

proof fn lemma_compaction_is_one(entries: Seq<EntryModel>)
    ensures
        compaction_in(entries) matches Some(e) ==> e is Compaction,
    decreases entries.len(),
{
    if entries.len() > 0 {
        lemma_compaction_is_one(entries.drop_last());
    }
}

/// The row that lists the transcript `body`: its last title, else one made from
/// the first message of the user, and how many messages it holds.
pub open spec fn scanned(id: Seq<char>, body: Seq<char>, updated_at: u64) -> MetaModel {
    let entries = transcript::entries_in(text::lines(body));
    MetaModel {
        id,
        title: shown_title(title_in(entries), messages_in(entries)),
        updated_at,
        messages: messages_in(entries).len() as usize,
    }
}

/// The listing can be thrown away at any time: a row that is made anew from a
/// transcript is the row of the conversation that the transcript holds.
pub proof fn law_listing_can_be_rebuilt(s: Session, body: Seq<char>, updated_at: u64)
    requires
        s.stored_as(transcript::entries_in(text::lines(body))),
    ensures
        scanned(s.id@, body, updated_at) == s.row(updated_at),
{
    assert(types::messages(s.messages@).len() == s.messages@.len());
}

/// The row that lists a transcript.
pub fn scan_meta(id: &str, body: &str, updated_at: u64) -> (r: SessionMeta)
    ensures
        r@ == scanned(id@, body@, updated_at),
{
    let replayed = replay(body);
    let session = Session {
        id: id.to_owned(),
        messages: replayed.messages,
        title: replayed.title,
        compaction: replayed.compaction,
    };
    session.meta(updated_at)
}

/// The JSON of a row.
pub open spec fn row_json(m: MetaModel) -> JsonModel {
    JsonModel::object().with("id"@, JsonModel::Str(m.id)).with("title"@, JsonModel::Str(m.title)).with(
        "updated_at"@,
        JsonModel::integer(m.updated_at as int),
    ).with("messages"@, JsonModel::integer(m.messages as int))
}

/// The row that `j` stores.
pub open spec fn row_of(j: JsonModel) -> Option<MetaModel> {
    match (j.str_at("id"@), j.str_at("title"@), j.get("updated_at"@), j.get("messages"@)) {
        (Some(id), Some(title), Some(u), Some(n)) => match (u.as_u64(), n.as_u64()) {
            (Some(updated_at), Some(messages)) => if messages <= usize::MAX {
                Some(MetaModel { id, title, updated_at, messages: messages as usize })
            } else {
                None
            },
            _ => None,
        },
        _ => None,
    }
}

impl SessionMeta {
    /// The JSON of the row.
    pub fn to_json(&self) -> (r: Json)
        ensures
            r@ == row_json(self@),
    {
        Json::Object(
            JsonObject::new().with("id", Json::string(self.id.as_str())).with(
                "title",
                Json::string(self.title.as_str()),
            ).with("updated_at", Json::from_u64(self.updated_at)).with(
                "messages",
                Json::from_u64(self.messages as u64),
            ),
        )
    }

    /// The row that `j` stores.
    pub fn from_json(j: &Json) -> (r: Option<SessionMeta>)
        ensures
            match r {
                Some(m) => row_of(j@) == Some(m@),
                None => row_of(j@) is None,
            },
    {
        match (j.str_at("id"), j.str_at("title"), j.get("updated_at"), j.get("messages")) {
            (Some(id), Some(title), Some(u), Some(n)) => match (u.as_u64(), n.as_u64()) {
                (Some(updated_at), Some(messages)) => if messages <= usize::MAX as u64 {
                    Some(
                        SessionMeta {
                            id: id.to_owned(),
                            title: title.to_owned(),
                            updated_at,
                            messages: messages as usize,
                        },
                    )
                } else {
                    None
                },
                _ => None,
            },
            _ => None,
        }
    }
}

/// The rows, each as JSON.
pub open spec fn rows_json(ms: Seq<MetaModel>) -> Seq<JsonModel> {
    Seq::new(ms.len(), |i: int| row_json(ms[i]))
}

/// The JSON of a listing.
pub fn rows_to_json(metas: &Vec<SessionMeta>) -> (r: Json)
    ensures
        r@ == JsonModel::Array(rows_json(rows(metas@))),
{
    let mut out: Vec<Json> = Vec::new();
    let mut i: usize = 0;
    while i < metas.len()
        invariant
            i <= metas@.len(),
            out@.len() == i,
            forall|j: int| 0 <= j < i ==> (#[trigger] out@[j])@ == row_json(metas@[j]@),
        decreases metas@.len() - i,
    {
        out.push(metas[i].to_json());
        i += 1;
    }
    assert(json::models(out@) =~= rows_json(rows(metas@)));
    Json::array(out)
}

/// The rows that `items` store, where every one of them does store one.
pub open spec fn rows_of(items: Seq<JsonModel>) -> Option<Seq<MetaModel>>
    decreases items.len(),
{
    if items.len() == 0 {
        Some(Seq::empty())
    } else {
        match (rows_of(items.drop_last()), row_of(items.last())) {
            (Some(ms), Some(m)) => Some(ms.push(m)),
            _ => None,
        }
    }
}

proof fn lemma_rows_of_fails(items: Seq<JsonModel>, i: int)
    requires
        0 <= i < items.len(),
        row_of(items[i]) is None,
    ensures
        rows_of(items) is None,
    decreases items.len(),
{
    if i < items.len() - 1 {
        lemma_rows_of_fails(items.drop_last(), i);
    }
}

/// The listing that `j` stores.
pub open spec fn index_of(j: JsonModel) -> Option<Seq<MetaModel>> {
    match j.as_array() {
        Some(items) => rows_of(items),
        None => None,
    }
}

/// The listing that `j` stores.
pub fn index_from_json(j: &Json) -> (r: Option<Vec<SessionMeta>>)
    ensures
        match r {
            Some(ms) => index_of(j@) == Some(rows(ms@)),
            None => index_of(j@) is None,
        },
{
    let items = match j.as_array() {
        Some(items) => items,
        None => {
            return None;
        },
    };
    let ghost all = json::models(items@);
    let mut out: Vec<SessionMeta> = Vec::new();
    let mut i: usize = 0;
    assert(all.take(0) =~= Seq::empty());
    assert(rows(out@) =~= Seq::empty());
    while i < items.len()
        invariant
            i <= items@.len(),
            all == json::models(items@),
            j@.as_array() == Some(all),
            rows_of(all.take(i as int)) == Some(rows(out@)),
        decreases items@.len() - i,
    {
        assert(all.take(i + 1).drop_last() =~= all.take(i as int));
        assert(all.take(i + 1).last() == items@[i as int]@);
        let ghost before = out@;
        match SessionMeta::from_json(&items[i]) {
            Some(m) => {
                let ghost v = m@;
                out.push(m);
                assert(rows(out@) =~= rows(before).push(v));
            },
            None => {
                proof {
                    lemma_rows_of_fails(all, i as int);
                }
                return None;
            },
        }
        i += 1;
    }
    assert(all.take(i as int) =~= all);
    Some(out)
}

/// The listing that a text stores, where it stores one.
pub fn read_index(text: &str) -> (r: Option<Vec<SessionMeta>>)
    ensures
        match (r, json::json_parsed(text@)) {
            (Some(ms), Some(j)) => index_of(j) == Some(rows(ms@)),
            (None, Some(j)) => index_of(j) is None,
            (Some(_), None) => false,
            (None, None) => true,
        },
{
    match json::parse(text) {
        Some(j) => index_from_json(&j),
        None => None,
    }
}

/// The text that stores a listing. It is read back as the same listing.
pub fn index_text(metas: &Vec<SessionMeta>) -> (r: String)
    ensures
        r@ == json::json_text(JsonModel::Array(rows_json(rows(metas@)))),
        json::json_parsed(r@) matches Some(j) && index_of(j) == Some(rows(metas@)),
{
    proof {
        lemma_index_is_plain(rows(metas@));
        law_index_round_trip(rows(metas@));
    }
    rows_to_json(metas).to_text()
}

/// No key that is written here is the reader's own mark.
proof fn lemma_keys_are_ordinary()
    ensures
        "id"@ != json::raw_mark(),
        "title"@ != json::raw_mark(),
        "updated_at"@ != json::raw_mark(),
        "messages"@ != json::raw_mark(),
{
    reveal_strlit("$serde_json::private::RawValue");
    assert(json::raw_mark().len() == 30);
    reveal_strlit("id");
    assert("id"@.len() == 2);
    reveal_strlit("title");
    assert("title"@.len() == 5);
    reveal_strlit("updated_at");
    assert("updated_at"@.len() == 10);
    reveal_strlit("messages");
    assert("messages"@.len() == 8);
}

proof fn lemma_index_is_plain(ms: Seq<MetaModel>)
    ensures
        json::is_plain(JsonModel::Array(rows_json(ms)), json::MAX_DEPTH as nat),
{
    broadcast use json::lemma_plain_with;

    lemma_keys_are_ordinary();
    let items = rows_json(ms);
    assert(json::is_plain(JsonModel::object(), 126));
    assert forall|i: int| 0 <= i < items.len() implies json::is_plain(#[trigger] items[i], 126) by {
        assert(items[i] == row_json(ms[i]));
    }
}

/// A listing is read back from the rows that store it.
pub proof fn law_index_round_trip(ms: Seq<MetaModel>)
    ensures
        rows_of(rows_json(ms)) == Some(ms),
    decreases ms.len(),
{
    if ms.len() > 0 {
        law_index_round_trip(ms.drop_last());
        assert(rows_json(ms).drop_last() =~= rows_json(ms.drop_last()));
        lemma_row_round_trip(ms.last());
        assert(ms.drop_last().push(ms.last()) =~= ms);
    } else {
        assert(ms =~= Seq::empty());
    }
}

proof fn lemma_row_round_trip(m: MetaModel)
    ensures
        row_of(row_json(m)) == Some(m),
{
    broadcast use json::lemma_get_with;

    reveal_strlit("id");
    reveal_strlit("title");
    reveal_strlit("updated_at");
    reveal_strlit("messages");
    assert("id"@.len() == 2 && "title"@.len() == 5 && "updated_at"@.len() == 10
        && "messages"@.len() == 8);
}

/// `a` is listed before `b`: the later one first, and of two that changed in the
/// same second the one with the greater id.
pub open spec fn newer(a: MetaModel, b: MetaModel) -> bool {
    a.updated_at > b.updated_at || (a.updated_at == b.updated_at && text::lex_lt(b.id, a.id))
}

fn is_newer(a: &SessionMeta, b: &SessionMeta) -> (r: bool)
    ensures
        r == newer(a@, b@),
{
    a.updated_at > b.updated_at || (a.updated_at == b.updated_at && text::str_lt(
        b.id.as_str(),
        a.id.as_str(),
    ))
}

/// `row` put into rows that are in order, behind all that are not newer than it
/// is and ahead of the rest.
pub open spec fn inserted(ms: Seq<MetaModel>, row: MetaModel) -> Seq<MetaModel>
    decreases ms.len(),
{
    if ms.len() == 0 || !newer(row, ms.last()) {
        ms.push(row)
    } else {
        inserted(ms.drop_last(), row).push(ms.last())
    }
}

/// The rows in order; rows that rank the same keep theirs.
pub open spec fn newest_first(ms: Seq<MetaModel>) -> Seq<MetaModel>
    decreases ms.len(),
{
    if ms.len() == 0 {
        Seq::empty()
    } else {
        inserted(newest_first(ms.drop_last()), ms.last())
    }
}

/// No row stands ahead of a newer one.
pub open spec fn in_order(ms: Seq<MetaModel>) -> bool {
    forall|i: int, j: int| 0 <= i < j < ms.len() ==> !newer(#[trigger] ms[j], #[trigger] ms[i])
}

proof fn lemma_newer_transitive(a: MetaModel, b: MetaModel, c: MetaModel)
    requires
        newer(a, b),
        !newer(c, b),
    ensures
        newer(a, c),
{
    text::lemma_lex_lt_total(b.id, c.id);
    if a.updated_at == b.updated_at && b.updated_at == c.updated_at {
        if text::lex_lt(c.id, b.id) {
            text::lemma_lex_lt_transitive(c.id, b.id, a.id);
        }
    }
}

proof fn lemma_inserted(ms: Seq<MetaModel>, row: MetaModel)
    requires
        in_order(ms),
    ensures
        in_order(inserted(ms, row)),
        inserted(ms, row).to_multiset() == ms.to_multiset().insert(row),
        inserted(ms, row).len() == ms.len() + 1,
    decreases ms.len(),
{
    broadcast use vstd::seq_lib::group_to_multiset_ensures;

    let out = inserted(ms, row);
    if ms.len() == 0 || !newer(row, ms.last()) {
        assert forall|i: int, j: int| 0 <= i < j < out.len() implies !newer(
            #[trigger] out[j],
            #[trigger] out[i],
        ) by {
            if j == ms.len() && newer(row, ms[i]) {
                let last = ms.last();
                if i < ms.len() - 1 {
                    assert(!newer(ms[ms.len() - 1], ms[i]));
                    lemma_newer_transitive(row, ms[i], last);
                }
            }
        }
    } else {
        let front = ms.drop_last();
        lemma_inserted(front, row);
        let head = inserted(front, row);
        assert(ms =~= front.push(ms.last()));
        assert(out.to_multiset() == head.to_multiset().insert(ms.last()));
        assert(ms.to_multiset() == front.to_multiset().insert(ms.last()));
        assert(out.to_multiset() =~= ms.to_multiset().insert(row));
        assert forall|i: int, j: int| 0 <= i < j < out.len() implies !newer(
            #[trigger] out[j],
            #[trigger] out[i],
        ) by {
            if j < head.len() {
                assert(out[j] == head[j] && out[i] == head[i]);
            } else {
                assert(out[i] == head[i]);
                assert(head.to_multiset().contains(head[i]));
                assert(front.to_multiset().insert(row).contains(head[i]));
                if head[i] == row {
                    if newer(ms.last(), row) {
                        lemma_newer_asymmetric(ms.last(), row);
                    }
                } else {
                    assert(front.to_multiset().contains(head[i]));
                    assert(front.contains(head[i]));
                    let k = choose|k: int| 0 <= k < front.len() && front[k] == head[i];
                    assert(ms[k] == head[i]);
                    assert(!newer(ms[ms.len() - 1], ms[k]));
                }
            }
        }
    }
}

proof fn lemma_newer_asymmetric(a: MetaModel, b: MetaModel)
    requires
        newer(a, b),
    ensures
        !newer(b, a),
{
    if text::lex_lt(b.id, a.id) {
        text::lemma_lex_lt_asymmetric(b.id, a.id);
    }
}

/// The listing holds every row, in order.
pub proof fn law_listing_is_sorted(ms: Seq<MetaModel>)
    ensures
        in_order(newest_first(ms)),
        newest_first(ms).to_multiset() == ms.to_multiset(),
        newest_first(ms).len() == ms.len(),
    decreases ms.len(),
{
    broadcast use vstd::seq_lib::group_to_multiset_ensures;

    if ms.len() > 0 {
        law_listing_is_sorted(ms.drop_last());
        lemma_inserted(newest_first(ms.drop_last()), ms.last());
        assert(ms =~= ms.drop_last().push(ms.last()));
    } else {
        assert(ms =~= Seq::empty());
    }
}

fn insert_row(ms: &mut Vec<SessionMeta>, row: SessionMeta)
    ensures
        rows(final(ms)@) == inserted(rows(old(ms)@), row@),
{
    let ghost start = rows(ms@);
    let ghost given = ms@;
    let mut at: usize = ms.len();
    assert(start.take(at as int) =~= start);
    assert(start.skip(at as int) =~= Seq::empty());
    assert(inserted(start, row@) + Seq::<MetaModel>::empty() =~= inserted(start, row@));
    while at > 0 && is_newer(&row, &ms[at - 1])
        invariant
            at <= ms@.len(),
            ms@ == given,
            start == rows(ms@),
            inserted(start, row@) == inserted(start.take(at as int), row@) + start.skip(
                at as int,
            ),
        decreases at,
    {
        assert(start[at - 1] == ms@[at - 1]@);
        let ghost front = start.take(at as int);
        assert(front.drop_last() =~= start.take(at - 1));
        assert(front.last() == start[at - 1]);
        assert(inserted(start.take(at - 1), row@).push(start[at - 1]) + start.skip(at as int)
            =~= inserted(start.take(at - 1), row@) + start.skip(at - 1));
        at -= 1;
    }
    if at > 0 {
        assert(start[at - 1] == ms@[at - 1]@);
        assert(start.take(at as int).last() == start[at - 1]);
    }
    assert(inserted(start.take(at as int), row@) == start.take(at as int).push(row@));
    let ghost r = row@;
    ms.insert(at, row);
    assert(rows(ms@) =~= start.take(at as int).push(r) + start.skip(at as int));
}

/// Puts the rows in order.
pub fn sort_newest_first(metas: Vec<SessionMeta>) -> (r: Vec<SessionMeta>)
    ensures
        rows(r@) == newest_first(rows(metas@)),
{
    let ghost all = rows(metas@);
    let mut out: Vec<SessionMeta> = Vec::new();
    let mut i: usize = 0;
    assert(all.take(0) =~= Seq::empty());
    assert(rows(out@) =~= Seq::empty());
    while i < metas.len()
        invariant
            i <= metas@.len(),
            all == rows(metas@),
            rows(out@) == newest_first(all.take(i as int)),
        decreases metas@.len() - i,
    {
        assert(all.take(i + 1).drop_last() =~= all.take(i as int));
        assert(all.take(i + 1).last() == metas@[i as int]@);
        insert_row(&mut out, metas[i].clone());
        i += 1;
    }
    assert(all.take(i as int) =~= all);
    out
}

/// The ids that rows are of.
pub open spec fn ids_of(ms: Seq<MetaModel>) -> Seq<Seq<char>> {
    Seq::new(ms.len(), |i: int| ms[i].id)
}

/// The cached rows are those of exactly the transcripts on disk: as many, each of
/// one of them, and no two of the same.
pub open spec fn covers(cached: Seq<MetaModel>, ids: Seq<Seq<char>>) -> bool {
    &&& cached.len() == ids.len()
    &&& forall|i: int| 0 <= i < cached.len() ==> ids.contains((#[trigger] cached[i]).id)
    &&& ids_of(cached).no_duplicates()
}

proof fn lemma_ids_of_inserted(ms: Seq<MetaModel>, row: MetaModel)
    ensures
        ids_of(inserted(ms, row)).to_multiset() == ids_of(ms).to_multiset().insert(row.id),
    decreases ms.len(),
{
    broadcast use vstd::seq_lib::group_to_multiset_ensures;

    if ms.len() > 0 && newer(row, ms.last()) {
        lemma_ids_of_inserted(ms.drop_last(), row);
        let front = inserted(ms.drop_last(), row);
        assert(ids_of(front.push(ms.last())) =~= ids_of(front).push(ms.last().id));
        assert(ids_of(ms) =~= ids_of(ms.drop_last()).push(ms.last().id));
        assert(ids_of(inserted(ms, row)).to_multiset() =~= ids_of(ms).to_multiset().insert(row.id));
    } else {
        assert(ids_of(ms.push(row)) =~= ids_of(ms).push(row.id));
    }
}

/// A listing names the conversations that its rows are of, as often as they do.
pub proof fn law_listing_keeps_ids(ms: Seq<MetaModel>)
    ensures
        ids_of(newest_first(ms)).to_multiset() == ids_of(ms).to_multiset(),
    decreases ms.len(),
{
    broadcast use vstd::seq_lib::group_to_multiset_ensures;

    if ms.len() > 0 {
        law_listing_keeps_ids(ms.drop_last());
        lemma_ids_of_inserted(newest_first(ms.drop_last()), ms.last());
        assert(ids_of(ms) =~= ids_of(ms.drop_last()).push(ms.last().id));
    } else {
        assert(ids_of(newest_first(ms)) =~= ids_of(ms));
    }
}

/// A listing out of a cache that is trusted names exactly the conversations that
/// are stored, each once.
pub proof fn law_cached_listing_is_exact(cached: Seq<MetaModel>, ids: Seq<Seq<char>>)
    requires
        ids.no_duplicates(),
        covers(cached, ids),
    ensures
        ids_of(newest_first(cached)).to_multiset() == ids.to_multiset(),
{
    broadcast use vstd::seq_lib::group_to_multiset_ensures;

    law_listing_keeps_ids(cached);
    let named = ids_of(cached);
    named.unique_seq_to_set();
    ids.unique_seq_to_set();
    assert forall|x: Seq<char>| named.to_set().contains(x) implies ids.to_set().contains(x) by {
        let i = choose|i: int| 0 <= i < named.len() && named[i] == x;
        assert(ids.contains(cached[i].id));
    }
    vstd::set_lib::lemma_subset_equality(named.to_set(), ids.to_set());
    named.lemma_multiset_has_no_duplicates();
    ids.lemma_multiset_has_no_duplicates();
    assert forall|x: Seq<char>| named.to_multiset().count(x) == ids.to_multiset().count(x) by {
        assert(named.to_set().contains(x) == ids.to_set().contains(x));
        assert(named.contains(x) == ids.contains(x));
        assert(named.to_multiset().contains(x) == ids.to_multiset().contains(x));
    }
    assert(named.to_multiset() =~= ids.to_multiset());
}

fn has_id(ids: &Vec<String>, id: &str) -> (r: bool)
    ensures
        r == text::views(ids@).contains(id@),
{
    let mut i: usize = 0;
    while i < ids.len()
        invariant
            i <= ids@.len(),
            forall|j: int| 0 <= j < i ==> (#[trigger] ids@[j])@ != id@,
        decreases ids@.len() - i,
    {
        if text::str_eq(ids[i].as_str(), id) {
            assert(text::views(ids@)[i as int] == id@);
            return true;
        }
        i += 1;
    }
    assert forall|j: int| 0 <= j < text::views(ids@).len() implies text::views(ids@)[j] != id@ by {
        assert(ids@[j]@ != id@);
    }
    false
}

/// Whether the id of row `i` is that of a row before it.
fn is_row_before(ms: &Vec<SessionMeta>, i: usize) -> (r: bool)
    requires
        i < ms@.len(),
    ensures
        r ==> !ids_of(rows(ms@)).no_duplicates(),
        !r ==> forall|k: int| 0 <= k < i ==> (#[trigger] rows(ms@)[k]).id != rows(ms@)[i as int].id,
{
    let ghost all = rows(ms@);
    let mut k: usize = 0;
    while k < i
        invariant
            k <= i < ms@.len(),
            all == rows(ms@),
            forall|j: int| 0 <= j < k ==> (#[trigger] all[j]).id != all[i as int].id,
        decreases i - k,
    {
        assert(all[k as int].id == ms@[k as int].id@);
        assert(all[i as int].id == ms@[i as int].id@);
        if text::str_eq(ms[k].id.as_str(), ms[i].id.as_str()) {
            assert(ids_of(all)[k as int] == ids_of(all)[i as int]);
            return true;
        }
        k += 1;
    }
    false
}

impl Session {
    /// The listing, where it is known without reading the transcripts: there are
    /// none, or the cache covers exactly those on disk. Anything else means that the
    /// cache went stale, and the rows are to be made anew.
    pub fn list(ids: &Vec<String>, cached: Option<Vec<SessionMeta>>) -> (r: Option<Vec<SessionMeta>>)
        ensures
            match r {
                Some(rs) => if ids@.len() == 0 {
                    rs@.len() == 0
                } else {
                    &&& cached matches Some(c)
                    &&& covers(rows(c@), text::views(ids@))
                    &&& rows(rs@) == newest_first(rows(c@))
                },
                None => ids@.len() > 0 && match cached {
                    Some(c) => !covers(rows(c@), text::views(ids@)),
                    None => true,
                },
            },
    {
        if ids.len() == 0 {
            return Some(Vec::new());
        }
        match cached {
            None => None,
            Some(c) => {
                if c.len() != ids.len() {
                    return None;
                }
                let mut i: usize = 0;
                while i < c.len()
                    invariant
                        i <= c@.len(),
                        cached == Some(c),
                        ids@.len() > 0,
                        c@.len() == ids@.len(),
                        forall|j: int|
                            0 <= j < i ==> text::views(ids@).contains((#[trigger] rows(c@)[j]).id),
                        forall|j: int, k: int|
                            0 <= k < j < i ==> (#[trigger] rows(c@)[j]).id != (
                            #[trigger] rows(c@)[k]).id,
                    decreases c@.len() - i,
                {
                    assert(rows(c@)[i as int].id == c@[i as int].id@);
                    if !has_id(ids, c[i].id.as_str()) {
                        return None;
                    }
                    if is_row_before(&c, i) {
                        return None;
                    }
                    i += 1;
                }
                Some(sort_newest_first(c))
            },
        }
    }
}

/// The rows with `row` in place of the first one of the same id, or behind all.
pub open spec fn touched(ms: Seq<MetaModel>, row: MetaModel) -> Seq<MetaModel>
    decreases ms.len(),
{
    if ms.len() == 0 {
        seq![row]
    } else if ms[0].id == row.id {
        seq![row] + ms.skip(1)
    } else {
        seq![ms[0]] + touched(ms.skip(1), row)
    }
}

impl Session {
    /// The listing with one row refreshed.
    pub fn touch_index(metas: Vec<SessionMeta>, row: SessionMeta) -> (r: Vec<SessionMeta>)
        ensures
            rows(r@) == newest_first(touched(rows(metas@), row@)),
    {
        let ghost all = rows(metas@);
        let ghost fresh = row@;
        let mut metas = metas;
        let mut i: usize = 0;
        assert(all.skip(0) =~= all);
        assert(all.take(0) + touched(all, fresh) =~= touched(all, fresh));
        while i < metas.len() && !text::str_eq(metas[i].id.as_str(), row.id.as_str())
            invariant
                i <= metas@.len(),
                all == rows(metas@),
                fresh == row@,
                touched(all, fresh) == all.take(i as int) + touched(all.skip(i as int), fresh),
            decreases metas@.len() - i,
        {
            assert(all[i as int] == metas@[i as int]@);
            assert(all.skip(i as int)[0] == all[i as int]);
            assert(all.skip(i as int).skip(1) =~= all.skip(i + 1));
            assert(all.take(i as int) + (seq![all[i as int]] + touched(all.skip(i + 1), fresh))
                =~= all.take(i + 1) + touched(all.skip(i + 1), fresh));
            i += 1;
        }
        if i < metas.len() {
            assert(all.skip(i as int)[0] == metas@[i as int]@);
            metas.set(i, row);
            assert(rows(metas@) =~= all.take(i as int) + (seq![fresh] + all.skip(i as int).skip(1)));
        } else {
            metas.push(row);
            assert(rows(metas@) =~= all.take(i as int) + seq![fresh]);
        }
        sort_newest_first(metas)
    }
}

/// The rows that are not of `id`.
pub open spec fn without(ms: Seq<MetaModel>, id: Seq<char>) -> Seq<MetaModel>
    decreases ms.len(),
{
    if ms.len() == 0 {
        Seq::empty()
    } else if ms.last().id == id {
        without(ms.drop_last(), id)
    } else {
        without(ms.drop_last(), id).push(ms.last())
    }
}

/// The listing without `id`.
pub fn forget(metas: &Vec<SessionMeta>, id: &str) -> (r: Vec<SessionMeta>)
    ensures
        rows(r@) == without(rows(metas@), id@),
{
    let ghost all = rows(metas@);
    let mut out: Vec<SessionMeta> = Vec::new();
    let mut i: usize = 0;
    assert(all.take(0) =~= Seq::empty());
    assert(rows(out@) =~= Seq::empty());
    while i < metas.len()
        invariant
            i <= metas@.len(),
            all == rows(metas@),
            rows(out@) == without(all.take(i as int), id@),
        decreases metas@.len() - i,
    {
        assert(all.take(i + 1).drop_last() =~= all.take(i as int));
        assert(all.take(i + 1).last() == metas@[i as int]@);
        let ghost before = out@;
        if !text::str_eq(metas[i].id.as_str(), id) {
            out.push(metas[i].clone());
            assert(rows(out@) =~= rows(before).push(metas@[i as int]@));
        }
        i += 1;
    }
    assert(all.take(i as int) =~= all);
    out
}

/// A title keeps the words of the text, one space apart. Only one that is too long is
/// cut: it is then the beginning of these words as far as there is room, and an ellipsis
/// says that more follows.
pub proof fn law_title_keeps_the_words(s: Seq<char>)
    ensures
        ({
            let whole = text::join(text::words(s), seq![' ']);
            &&& whole.len() <= MAX_TITLE_CHARS ==> title_of(s) == whole
            &&& whole.len() > MAX_TITLE_CHARS ==> {
                &&& title_of(s).len() > 0
                &&& title_of(s).last() == '…'
                &&& exists|spaces: Seq<char>|
                    #![trigger title_of(s).drop_last() + spaces]
                    whole.take(MAX_TITLE_CHARS as int) == title_of(s).drop_last() + spaces
                        && text::all_spaces(spaces)
            }
        }),
{
    let whole = text::collapsed(s);
    reveal_strlit(" ");
    assert(" "@ =~= seq![' ']);
    if whole.len() > MAX_TITLE_CHARS {
        let cut = whole.take(MAX_TITLE_CHARS as int);
        text::lemma_trim_end_parts(cut);
        assert(title_of(s).drop_last() =~= text::trim_end(cut));
    }
}

/// A session without a title of its own is shown under its first user message, and one
/// where nothing was said yet as new.
pub proof fn law_untitled_shows_its_first_message(ms: Seq<MessageModel>, i: int)
    requires
        0 <= i < ms.len(),
        ms[i] is User,
        forall|j: int| 0 <= j < i ==> !(#[trigger] ms[j] is User),
    ensures
        shown_title(None, ms) == title_of(ms[i]->User_content),
        forall|title: Seq<char>| #[trigger] shown_title(Some(title), ms) == title,
{
    compact::lemma_user_from(ms, 0);
}

/// A session where the user said nothing yet is shown as new.
pub proof fn law_unused_session_is_new(ms: Seq<MessageModel>)
    requires
        forall|j: int| 0 <= j < ms.len() ==> !(#[trigger] ms[j] is User),
    ensures
        shown_title(None, ms) == "New chat"@,
{
    compact::lemma_user_from(ms, 0);
}

/// A transcript holds the messages that were written, in order.
pub proof fn law_every_message_is_replayed(entries: Seq<EntryModel>)
    ensures
        replayed(entries).messages == entries.filter_map(
            |e: EntryModel|
                match e {
                    EntryModel::Message(m) => Some(m),
                    _ => None,
                },
        ),
    decreases entries.len(),
{
    if entries.len() > 0 {
        law_every_message_is_replayed(entries.drop_last());
    }
}

/// The title that was written last stands.
pub proof fn law_last_title_stands(
    entries: Seq<EntryModel>,
    title: Seq<char>,
    rest: Seq<EntryModel>,
)
    requires
        forall|i: int| 0 <= i < rest.len() ==> !(#[trigger] rest[i] is Title),
    ensures
        replayed(entries.push(EntryModel::Title { text: title }) + rest).title == Some(title),
        replayed(rest).title is None,
    decreases rest.len(),
{
    let all = entries.push(EntryModel::Title { text: title });
    if rest.len() > 0 {
        law_last_title_stands(entries, title, rest.drop_last());
        assert((all + rest).drop_last() =~= all + rest.drop_last());
    } else {
        assert(all + rest =~= all);
    }
}

/// The compaction that was written last stands.
pub proof fn law_last_compaction_stands(
    entries: Seq<EntryModel>,
    record: EntryModel,
    rest: Seq<EntryModel>,
)
    requires
        record is Compaction,
        forall|i: int| 0 <= i < rest.len() ==> !(#[trigger] rest[i] is Compaction),
    ensures
        replayed(entries.push(record) + rest).compaction == Some(record),
        replayed(rest).compaction is None,
    decreases rest.len(),
{
    let all = entries.push(record);
    if rest.len() > 0 {
        law_last_compaction_stands(entries, record, rest.drop_last());
        assert((all + rest).drop_last() =~= all + rest.drop_last());
    } else {
        assert(all + rest =~= all);
    }
}

/// Going back takes away the last user message and all that follows it, and nothing
/// else. Where the user said nothing, nothing is taken away.
pub proof fn law_rewinding_drops_the_last_turn(c: ConversationModel)
    ensures
        ({
            let back = c.after(Change::RewindToLastUser);
            &&& back.title == c.title
            &&& back.compaction == c.compaction
            &&& back.messages.is_prefix_of(c.messages)
            &&& (exists|i: int| 0 <= i < c.messages.len() && #[trigger] c.messages[i] is User) ==> {
                &&& back.messages.len() < c.messages.len()
                &&& c.messages[back.messages.len() as int] is User
                &&& forall|i: int|
                    back.messages.len() < i < c.messages.len() ==> !(
                    #[trigger] c.messages[i] is User)
            }
            &&& (forall|i: int| 0 <= i < c.messages.len() ==> !(#[trigger] c.messages[i] is User))
                ==> back.messages == c.messages
        }),
{
    compact::lemma_user_before(c.messages, c.messages.len() as int);
}

/// What is appended comes last, and everything else stays as it is; a title and a
/// compaction change nothing but themselves and, for the latter, the messages.
pub proof fn law_changes_change_one_thing(
    c: ConversationModel,
    m: MessageModel,
    title: Seq<char>,
    record: EntryModel,
    kept: Seq<MessageModel>,
)
    ensures
        c.after(Change::Append(m)) == (ConversationModel { messages: c.messages.push(m), ..c }),
        c.after(Change::SetTitle(title)).messages == c.messages,
        c.after(Change::SetTitle(title)).compaction == c.compaction,
        c.after(Change::SetTitle(title)).title == Some(title_of(title)),
        c.after(Change::Rewrite(kept)).messages == kept,
        c.after(Change::Rewrite(kept)).title == c.title,
        c.after(Change::Rewrite(kept)).compaction == c.compaction,
        c.after(Change::Compact { record, kept }).messages == kept,
        c.after(Change::Compact { record, kept }).title == c.title,
        c.after(Change::Compact { record, kept }).compaction == Some(record),
{
}

/// To bring a row of the listing up to date changes it in its place and leaves every
/// other row as it is.
pub proof fn law_touching_changes_one_row(ms: Seq<MetaModel>, row: MetaModel, i: int)
    requires
        0 <= i < ms.len(),
        ms[i].id == row.id,
        forall|j: int| 0 <= j < i ==> (#[trigger] ms[j]).id != row.id,
    ensures
        touched(ms, row) == ms.update(i, row),
    decreases ms.len(),
{
    let rest = ms.skip(1);
    if i > 0 {
        assert forall|j: int| 0 <= j < i - 1 implies (#[trigger] rest[j]).id != row.id by {
            assert(rest[j] == ms[j + 1]);
        }
        law_touching_changes_one_row(rest, row, i - 1);
        assert(ms[0].id != row.id);
        assert(seq![ms[0]] + rest.update(i - 1, row) =~= ms.update(i, row));
    } else {
        assert(seq![row] + rest =~= ms.update(0, row));
    }
}

/// A session that is not in the listing yet is added to it, behind all others.
pub proof fn law_touching_adds_a_row(ms: Seq<MetaModel>, row: MetaModel)
    requires
        forall|j: int| 0 <= j < ms.len() ==> (#[trigger] ms[j]).id != row.id,
    ensures
        touched(ms, row) == ms.push(row),
    decreases ms.len(),
{
    if ms.len() > 0 {
        let rest = ms.skip(1);
        assert forall|j: int| 0 <= j < rest.len() implies (#[trigger] rest[j]).id != row.id by {
            assert(rest[j] == ms[j + 1]);
        }
        law_touching_adds_a_row(rest, row);
        assert(ms[0].id != row.id);
        assert(seq![ms[0]] + rest.push(row) =~= ms.push(row));
    } else {
        assert(seq![row] =~= ms.push(row));
    }
}

/// To forget a session takes its row out of the listing and leaves every other, in order.
pub proof fn law_forgetting_takes_one_row(ms: Seq<MetaModel>, id: Seq<char>)
    ensures
        without(ms, id) == ms.filter(|m: MetaModel| m.id != id),
    decreases ms.len(),
{
    reveal(Seq::filter);
    if ms.len() > 0 {
        law_forgetting_takes_one_row(ms.drop_last(), id);
    }
}

/// The listing shows what was used last first.
pub proof fn law_recent_sessions_come_first(ms: Seq<MetaModel>, i: int, j: int)
    requires
        0 <= i < j < newest_first(ms).len(),
    ensures
        newest_first(ms)[i].updated_at >= newest_first(ms)[j].updated_at,
        newest_first(ms)[i].updated_at == newest_first(ms)[j].updated_at ==> !text::lex_lt(
            newest_first(ms)[i].id,
            newest_first(ms)[j].id,
        ),
{
    law_listing_is_sorted(ms);
}

/// The name of a transcript tells the session, and no other name does.
pub proof fn law_transcript_names_tell_the_session(id: Seq<char>, name: Seq<char>)
    ensures
        id_in(id + ".jsonl"@) == Some(id),
        id_in(name) matches Some(told) ==> name == told + ".jsonl"@,
{
    let n = id.len() as int;
    assert((id + ".jsonl"@).skip(n) =~= ".jsonl"@);
    assert((id + ".jsonl"@).take(n) =~= id);
    if let Some(told) = id_in(name) {
        let k = name.len() - ".jsonl"@.len();
        assert(name =~= name.take(k) + name.skip(k));
    }
}

/// Output that fits is kept as it is. Of longer output both ends are kept, and where the
/// whole was written to a file, what is kept ends with its place.
pub proof fn law_long_output_is_found_again(path: Seq<char>, body: Seq<char>, max: int)
    requires
        0 <= max,
    ensures
        forall|written: bool|
            text::byte_len(body) <= max ==> #[trigger] spilled(path, body, max, written) == (
                body,
                None::<Seq<char>>,
            ),
        text::byte_len(body) > max ==> {
            &&& spilled(path, body, max, true).1 == Some(path)
            &&& spilled(path, body, max, true).0 == exec::truncated_middle(body, max)
                + "\n\n[full output: "@ + path + "]"@
            &&& spilled(path, body, max, false) == (
                exec::truncated_middle(body, max),
                None::<Seq<char>>,
            )
        },
{
}

/// The listing tells of a session its id, what it is called, and how many messages it holds.
pub proof fn law_row_tells_of_the_session(s: Session, updated_at: u64)
    ensures
        s.row(updated_at).id == s.id@,
        s.row(updated_at).updated_at == updated_at,
        s.row(updated_at).messages == s.messages@.len() as usize,
        s.row(updated_at).title == (match s.title {
            Some(t) => t@,
            None => shown_title(None, types::messages(s.messages@)),
        }),
{
}

} // verus!
