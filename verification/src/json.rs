//! JSON values as the library sees them, and the text `serde_json` makes of them.
use crate::text;
use crate::text::{str_eq, str_lt};
use vstd::prelude::*;

verus! {

broadcast use vstd::std_specs::vec::axiom_spec_len;

/// `serde_json::Value`, carried through unseen.
#[verifier::external_type_specification]
#[verifier::external_body]
pub struct ExValue(serde_json::Value);

/// `serde_json::Number`, carried through unseen.
#[verifier::external_type_specification]
#[verifier::external_body]
pub struct ExNumber(serde_json::Number);

/// `serde_json::Number` clones to the same number.
pub assume_specification[ <serde_json::Number as Clone>::clone ](n: &serde_json::Number) -> (r:
    serde_json::Number)
    ensures
        r == *n,
;

/// A JSON value.
#[derive(Debug, PartialEq)]
pub enum Json {
    Null,
    Bool(bool),
    Number(serde_json::Number),
    Str(String),
    Array(Vec<Json>),
    Object(JsonObject),
}

/// The members of a JSON object: each key once, in the order of the keys.
#[derive(Debug, PartialEq)]
pub struct JsonObject {
    members: Vec<(String, Json)>,
}

/// What a JSON number is.
pub enum NumberModel {
    Int(int),
    Float(serde_json::Number),
}

/// What a JSON value is, whatever it is stored in.
pub enum JsonModel {
    Null,
    Bool(bool),
    Number(NumberModel),
    Str(Seq<char>),
    Array(Seq<JsonModel>),
    Object(Seq<(Seq<char>, JsonModel)>),
}

/// What a `serde_json::Number` is: an integer by its value, a fraction by itself.
pub uninterp spec fn number_model(n: serde_json::Number) -> NumberModel;

impl Json {
    pub open spec fn view(&self) -> JsonModel
        decreases self,
    {
        match self {
            Json::Null => JsonModel::Null,
            Json::Bool(b) => JsonModel::Bool(*b),
            Json::Number(n) => JsonModel::Number(number_model(*n)),
            Json::Str(s) => JsonModel::Str(s@),
            Json::Array(v) => JsonModel::Array(
                Seq::new(
                    v@.len(),
                    |i: int|
                        if 0 <= i < v@.len() {
                            v@[i].view()
                        } else {
                            JsonModel::Null
                        },
                ),
            ),
            Json::Object(o) => JsonModel::Object(o.view()),
        }
    }
}

impl JsonObject {
    pub closed spec fn view(&self) -> Seq<(Seq<char>, JsonModel)>
        decreases self,
    {
        Seq::new(
            self.members@.len(),
            |i: int|
                if 0 <= i < self.members@.len() {
                    (self.members@[i].0@, self.members@[i].1.view())
                } else {
                    (Seq::empty(), JsonModel::Null)
                },
        )
    }

    #[verifier::type_invariant]
    spec fn sorted(&self) -> bool {
        forall|i: int, j: int|
            0 <= i < j < self.members@.len() ==> text::lex_lt(
                #[trigger] self.members@[i].0@,
                #[trigger] self.members@[j].0@,
            )
    }

    /// An object without members.
    pub fn new() -> (r: JsonObject)
        ensures
            r@ == Seq::<(Seq<char>, JsonModel)>::empty(),
    {
        let r = JsonObject { members: Vec::new() };
        assert(r@ =~= Seq::<(Seq<char>, JsonModel)>::empty());
        r
    }
}

impl Clone for Json {
    fn clone(&self) -> (r: Json)
        ensures
            r@ == self@,
        decreases self,
    {
        match self {
            Json::Null => Json::Null,
            Json::Bool(b) => Json::Bool(*b),
            Json::Number(n) => Json::Number(n.clone()),
            Json::Str(s) => Json::Str(s.clone()),
            Json::Array(v) => {
                let mut out: Vec<Json> = Vec::new();
                let mut i: usize = 0;
                while i < v.len()
                    invariant
                        i <= v@.len(),
                        out@.len() == i,
                        decreases_to!(self => v),
                        forall|j: int| 0 <= j < i ==> (#[trigger] out@[j])@ == v@[j]@,
                    decreases v@.len() - i,
                {
                    let ghost e = v@[i as int];
                    assert(decreases_to!(v => v@));
                    assert(decreases_to!(v@ => e));
                    out.push(v[i].clone());
                    i += 1;
                }
                let r = Json::Array(out);
                assert(r@->Array_0 =~= self@->Array_0);
                r
            },
            Json::Object(o) => Json::Object(o.clone()),
        }
    }
}

impl Clone for JsonObject {
    fn clone(&self) -> (r: JsonObject)
        ensures
            r@ == self@,
        decreases self,
    {
        proof {
            use_type_invariant(self);
        }
        let mut out: Vec<(String, Json)> = Vec::new();
        let mut i: usize = 0;
        while i < self.members.len()
            invariant
                i <= self.members@.len(),
                out@.len() == i,
                forall|j: int|
                    0 <= j < i ==> (#[trigger] out@[j]).0@ == self.members@[j].0@ && out@[j].1@
                        == self.members@[j].1@,
            decreases self.members@.len() - i,
        {
            let ghost e = self.members@[i as int];
            assert(decreases_to!(self.members@ => e));
            let v = self.members[i].1.clone();
            out.push((self.members[i].0.clone(), v));
            i += 1;
        }
        let r = JsonObject { members: out };
        assert(r@ =~= self@);
        r
    }
}

/// The value under `key` among `members`, where the key occurs.
pub open spec fn get_in(members: Seq<(Seq<char>, JsonModel)>, key: Seq<char>) -> Option<JsonModel>
    decreases members.len(),
{
    if members.len() == 0 {
        None
    } else if members[0].0 == key {
        Some(members[0].1)
    } else {
        get_in(members.skip(1), key)
    }
}

/// `members` with `value` under `key`: in place of what the key held before, or
/// else ahead of the first greater key.
pub open spec fn set_in(
    members: Seq<(Seq<char>, JsonModel)>,
    key: Seq<char>,
    value: JsonModel,
) -> Seq<(Seq<char>, JsonModel)>
    decreases members.len(),
{
    if members.len() == 0 {
        seq![(key, value)]
    } else if members[0].0 == key {
        seq![(key, value)] + members.skip(1)
    } else if text::lex_lt(key, members[0].0) {
        seq![(key, value)] + members
    } else {
        seq![members[0]] + set_in(members.skip(1), key, value)
    }
}

impl JsonModel {
    /// The member `key` of an object.
    pub open spec fn get(self, key: Seq<char>) -> Option<JsonModel> {
        match self {
            JsonModel::Object(members) => get_in(members, key),
            _ => None,
        }
    }

    /// The object without members.
    pub open spec fn object() -> JsonModel {
        JsonModel::Object(Seq::empty())
    }

    /// The object with `value` under `key`.
    pub open spec fn with(self, key: Seq<char>, value: JsonModel) -> JsonModel {
        JsonModel::Object(set_in(self->Object_0, key, value))
    }

    /// The element `i` of an array.
    pub open spec fn elem(self, i: int) -> Option<JsonModel> {
        match self {
            JsonModel::Array(items) if 0 <= i < items.len() => Some(items[i]),
            _ => None,
        }
    }

    pub open spec fn as_str(self) -> Option<Seq<char>> {
        match self {
            JsonModel::Str(s) => Some(s),
            _ => None,
        }
    }

    /// The string under `key`.
    pub open spec fn str_at(self, key: Seq<char>) -> Option<Seq<char>> {
        match self.get(key) {
            Some(v) => v.as_str(),
            None => None,
        }
    }

    /// The number under `key`, zero where there is none.
    pub open spec fn u64_at(self, key: Seq<char>) -> u64 {
        match self.get(key) {
            Some(v) => match v.as_u64() {
                Some(n) => n,
                None => 0,
            },
            None => 0,
        }
    }

    pub open spec fn as_bool(self) -> Option<bool> {
        match self {
            JsonModel::Bool(b) => Some(b),
            _ => None,
        }
    }

    pub open spec fn as_array(self) -> Option<Seq<JsonModel>> {
        match self {
            JsonModel::Array(items) => Some(items),
            _ => None,
        }
    }

    pub open spec fn as_u64(self) -> Option<u64> {
        match self {
            JsonModel::Number(n) => n.as_u64(),
            _ => None,
        }
    }

    pub open spec fn as_i64(self) -> Option<i64> {
        match self {
            JsonModel::Number(n) => n.as_i64(),
            _ => None,
        }
    }

    pub open spec fn integer(n: int) -> JsonModel {
        JsonModel::Number(NumberModel::Int(n))
    }
}

impl NumberModel {
    pub open spec fn as_u64(self) -> Option<u64> {
        match self {
            NumberModel::Int(i) if 0 <= i <= u64::MAX => Some(i as u64),
            _ => None,
        }
    }

    pub open spec fn as_i64(self) -> Option<i64> {
        match self {
            NumberModel::Int(i) if i64::MIN <= i <= i64::MAX => Some(i as i64),
            _ => None,
        }
    }
}

/// What is read under a key after one member was set: the value that was set
/// under its own key, and what was there before under every other.
pub proof fn law_get_after_set(
    members: Seq<(Seq<char>, JsonModel)>,
    key: Seq<char>,
    value: JsonModel,
    other: Seq<char>,
)
    ensures
        get_in(set_in(members, key, value), key) == Some(value),
        other != key ==> get_in(set_in(members, key, value), other) == get_in(members, other),
    decreases members.len(),
{
    let after = set_in(members, key, value);
    if members.len() == 0 {
        assert(after.skip(1) =~= members);
    } else if members[0].0 == key {
        assert(after.skip(1) =~= members.skip(1));
    } else if text::lex_lt(key, members[0].0) {
        assert(after.skip(1) =~= members);
    } else {
        law_get_after_set(members.skip(1), key, value, other);
        assert(after.skip(1) =~= set_in(members.skip(1), key, value));
    }
}

/// Reading a member of an object after one was set.
pub broadcast proof fn lemma_get_with(o: JsonModel, key: Seq<char>, value: JsonModel, other: Seq<char>)
    requires
        o is Object,
    ensures
        #[trigger] o.with(key, value).get(other) == (if other == key {
            Some(value)
        } else {
            o.get(other)
        }),
{
    law_get_after_set(o->Object_0, key, value, other);
}

// A chain of `set_in` from the front: `members` up to `i` stays as it is.
proof fn lemma_set_in_from(
    members: Seq<(Seq<char>, JsonModel)>,
    i: int,
    key: Seq<char>,
    value: JsonModel,
)
    requires
        0 <= i <= members.len(),
        forall|j: int| 0 <= j < i ==> (#[trigger] members[j]).0 != key && !text::lex_lt(key, members[j].0),
    ensures
        set_in(members, key, value) == members.take(i) + set_in(members.skip(i), key, value),
    decreases i,
{
    if i == 0 {
        assert(members.skip(0) =~= members);
        assert(members.take(0) + set_in(members, key, value) =~= set_in(members, key, value));
    } else {
        let rest = members.skip(1);
        assert forall|j: int| 0 <= j < i - 1 implies (#[trigger] rest[j]).0 != key && !text::lex_lt(
            key,
            rest[j].0,
        ) by {
            assert(rest[j] == members[j + 1]);
        }
        assert(members[0].0 != key);
        lemma_set_in_from(rest, i - 1, key, value);
        assert(rest.skip(i - 1) =~= members.skip(i));
        assert(seq![members[0]] + (rest.take(i - 1) + set_in(members.skip(i), key, value))
            =~= members.take(i) + set_in(members.skip(i), key, value));
    }
}

proof fn lemma_get_in_from(members: Seq<(Seq<char>, JsonModel)>, i: int, key: Seq<char>)
    requires
        0 <= i <= members.len(),
        forall|j: int| 0 <= j < i ==> (#[trigger] members[j]).0 != key,
    ensures
        get_in(members, key) == get_in(members.skip(i), key),
    decreases i,
{
    if i == 0 {
        assert(members.skip(0) =~= members);
    } else {
        let rest = members.skip(1);
        assert forall|j: int| 0 <= j < i - 1 implies (#[trigger] rest[j]).0 != key by {
            assert(rest[j] == members[j + 1]);
        }
        assert(members[0].0 != key);
        lemma_get_in_from(rest, i - 1, key);
        assert(rest.skip(i - 1) =~= members.skip(i));
    }
}

impl JsonObject {
    /// How many members there are.
    pub fn len(&self) -> (r: usize)
        ensures
            r == self@.len(),
    {
        self.members.len()
    }

    /// The key of member `i`.
    pub fn key(&self, i: usize) -> (r: &str)
        requires
            i < self@.len(),
        ensures
            r@ == self@[i as int].0,
    {
        self.members[i].0.as_str()
    }

    /// The value of member `i`.
    pub fn value(&self, i: usize) -> (r: &Json)
        requires
            i < self@.len(),
        ensures
            r@ == self@[i as int].1,
    {
        &self.members[i].1
    }

    /// The value under `key`.
    pub fn get(&self, key: &str) -> (r: Option<&Json>)
        ensures
            match r {
                Some(v) => get_in(self@, key@) == Some(v@),
                None => get_in(self@, key@) is None,
            },
    {
        let mut i: usize = 0;
        while i < self.members.len()
            invariant
                i <= self.members@.len(),
                forall|j: int| 0 <= j < i ==> (#[trigger] self@[j]).0 != key@,
            decreases self.members@.len() - i,
        {
            assert(self@[i as int].0 == self.members@[i as int].0@);
            if str_eq(self.members[i].0.as_str(), key) {
                proof {
                    lemma_get_in_from(self@, i as int, key@);
                    assert(self@.skip(i as int)[0] == self@[i as int]);
                }
                return Some(&self.members[i].1);
            }
            i += 1;
        }
        proof {
            lemma_get_in_from(self@, i as int, key@);
        }
        None
    }

    /// The object with `value` under `key`.
    pub fn with(self, key: &str, value: Json) -> (r: JsonObject)
        ensures
            r@ == set_in(self@, key@, value@),
    {
        proof {
            use_type_invariant(&self);
        }
        let ghost before = self@;
        let mut members = self.members;
        let ghost start = members@;
        let mut i: usize = 0;
        while i < members.len() && str_lt(members[i].0.as_str(), key)
            invariant
                i <= members@.len(),
                members@ == start,
                before.len() == start.len(),
                forall|j: int|
                    0 <= j < start.len() ==> (#[trigger] before[j]) == (
                        start[j].0@,
                        start[j].1@,
                    ),
                forall|j: int, k: int|
                    0 <= j < k < start.len() ==> text::lex_lt(
                        #[trigger] start[j].0@,
                        #[trigger] start[k].0@,
                    ),
                forall|j: int| 0 <= j < i ==> text::lex_lt(#[trigger] start[j].0@, key@),
            decreases members@.len() - i,
        {
            i += 1;
        }
        proof {
            assert forall|j: int| 0 <= j < i implies (#[trigger] before[j]).0 != key@
                && !text::lex_lt(key@, before[j].0) by {
                assert(text::lex_lt(start[j].0@, key@));
                text::lemma_lex_lt_asymmetric(before[j].0, key@);
            }
            lemma_set_in_from(before, i as int, key@, value@);
            if i < start.len() {
                assert(before.skip(i as int)[0] == before[i as int]);
                text::lemma_lex_lt_total(key@, start[i as int].0@);
            }
        }
        let k = key.to_owned();
        let replaces = i < members.len() && str_eq(members[i].0.as_str(), key);
        if replaces {
            members.set(i, (k, value));
            proof {
                assert forall|j: int, l: int| 0 <= j < l < members@.len() implies text::lex_lt(
                    #[trigger] members@[j].0@,
                    #[trigger] members@[l].0@,
                ) by {
                    assert(members@[j].0@ == start[j].0@);
                    assert(members@[l].0@ == start[l].0@);
                }
            }
        } else {
            members.insert(i, (k, value));
            proof {
                assert forall|j: int, l: int| 0 <= j < l < members@.len() implies text::lex_lt(
                    #[trigger] members@[j].0@,
                    #[trigger] members@[l].0@,
                ) by {
                    let sj = if j < i { j } else { j - 1 };
                    let sl = if l < i { l } else { l - 1 };
                    if j != i {
                        assert(members@[j] == start[sj]);
                    }
                    if l != i {
                        assert(members@[l] == start[sl]);
                    }
                    if j == i {
                        if sl > i {
                            assert(text::lex_lt(start[i as int].0@, start[sl].0@));
                            text::lemma_lex_lt_transitive(
                                key@,
                                start[i as int].0@,
                                start[sl].0@,
                            );
                        }
                    } else if l == i {
                        assert(text::lex_lt(start[j].0@, key@));
                    }
                }
            }
        }
        let r = JsonObject { members };
        proof {
            if replaces {
                assert(r@ =~= before.take(i as int) + (seq![(key@, value@)] + before.skip(
                    i as int,
                ).skip(1)));
            } else {
                let tail = before.skip(i as int);
                if i < start.len() {
                    assert(seq![(key@, value@)] + tail == set_in(tail, key@, value@));
                }
                assert(r@ =~= before.take(i as int) + (seq![(key@, value@)] + tail));
            }
        }
        r
    }
}

impl Json {
    pub fn object(o: JsonObject) -> (r: Json)
        ensures
            r@ == JsonModel::Object(o@),
    {
        Json::Object(o)
    }

    /// A JSON string.
    pub fn string(s: &str) -> (r: Json)
        ensures
            r@ == JsonModel::Str(s@),
    {
        Json::Str(s.to_owned())
    }

    pub fn from_u64(n: u64) -> (r: Json)
        ensures
            r@ == JsonModel::integer(n as int),
    {
        Json::Number(number_from_u64(n))
    }

    pub fn from_i64(n: i64) -> (r: Json)
        ensures
            r@ == JsonModel::integer(n as int),
    {
        Json::Number(number_from_i64(n))
    }

    /// A JSON array.
    pub fn array(items: Vec<Json>) -> (r: Json)
        ensures
            r@ == JsonModel::Array(models(items@)),
    {
        let r = Json::Array(items);
        assert(r@->Array_0 =~= models(items@));
        r
    }

    /// The member `key` of an object; nothing of any other value.
    pub fn get(&self, key: &str) -> (r: Option<&Json>)
        ensures
            match r {
                Some(v) => self@.get(key@) == Some(v@),
                None => self@.get(key@) is None,
            },
    {
        match self {
            Json::Object(o) => o.get(key),
            _ => None,
        }
    }

    /// The element `i` of an array; nothing of any other value.
    pub fn elem(&self, i: usize) -> (r: Option<&Json>)
        ensures
            match r {
                Some(v) => self@.elem(i as int) == Some(v@),
                None => self@.elem(i as int) is None,
            },
    {
        match self {
            Json::Array(items) => if i < items.len() {
                Some(&items[i])
            } else {
                None
            },
            _ => None,
        }
    }

    pub fn as_str(&self) -> (r: Option<&str>)
        ensures
            match r {
                Some(s) => self@.as_str() == Some(s@),
                None => self@.as_str() is None,
            },
    {
        match self {
            Json::Str(s) => Some(s.as_str()),
            _ => None,
        }
    }

    /// The string under `key`.
    pub fn str_at(&self, key: &str) -> (r: Option<&str>)
        ensures
            match r {
                Some(s) => self@.str_at(key@) == Some(s@),
                None => self@.str_at(key@) is None,
            },
    {
        match self.get(key) {
            Some(v) => v.as_str(),
            None => None,
        }
    }

    /// The number under `key`, zero where there is none.
    pub fn u64_at(&self, key: &str) -> (r: u64)
        ensures
            r == self@.u64_at(key@),
    {
        match self.get(key) {
            Some(v) => match v.as_u64() {
                Some(n) => n,
                None => 0,
            },
            None => 0,
        }
    }

    pub fn as_bool(&self) -> (r: Option<bool>)
        ensures
            r == self@.as_bool(),
    {
        match self {
            Json::Bool(b) => Some(*b),
            _ => None,
        }
    }

    pub fn as_array(&self) -> (r: Option<&Vec<Json>>)
        ensures
            match r {
                Some(items) => self@.as_array() == Some(models(items@)),
                None => self@.as_array() is None,
            },
    {
        match self {
            Json::Array(items) => {
                assert(self@->Array_0 =~= models(items@));
                Some(items)
            },
            _ => None,
        }
    }

    pub fn as_u64(&self) -> (r: Option<u64>)
        ensures
            r == self@.as_u64(),
    {
        match self {
            Json::Number(n) => number_as_u64(n),
            _ => None,
        }
    }

    pub fn as_i64(&self) -> (r: Option<i64>)
        ensures
            r == self@.as_i64(),
    {
        match self {
            Json::Number(n) => number_as_i64(n),
            _ => None,
        }
    }

    pub fn is_null(&self) -> (r: bool)
        ensures
            r == (self@ is Null),
    {
        match self {
            Json::Null => true,
            _ => false,
        }
    }
}

/// The values of `items`, one for one.
pub open spec fn models(items: Seq<Json>) -> Seq<JsonModel> {
    Seq::new(items.len(), |i: int| items[i]@)
}

/// `From<u64>` of `serde_json::Number` keeps the value.
#[verifier::external_body]
fn number_from_u64(n: u64) -> (r: serde_json::Number)
    ensures
        number_model(r) == NumberModel::Int(n as int),
{
    serde_json::Number::from(n)
}

/// `From<i64>` of `serde_json::Number` keeps the value.
#[verifier::external_body]
fn number_from_i64(n: i64) -> (r: serde_json::Number)
    ensures
        number_model(r) == NumberModel::Int(n as int),
{
    serde_json::Number::from(n)
}

/// `serde_json::Number::as_u64` gives an integer that is in range, and nothing
/// of any other number.
#[verifier::external_body]
fn number_as_u64(n: &serde_json::Number) -> (r: Option<u64>)
    ensures
        r == number_model(*n).as_u64(),
{
    n.as_u64()
}

/// `serde_json::Number::as_i64` gives an integer that is in range, and nothing
/// of any other number.
#[verifier::external_body]
fn number_as_i64(n: &serde_json::Number) -> (r: Option<i64>)
    ensures
        r == number_model(*n).as_i64(),
{
    n.as_i64()
}

/// What a `serde_json::Value` holds.
pub uninterp spec fn value_model(v: serde_json::Value) -> JsonModel;

/// A `serde_json::Value` taken apart by one level.
pub enum ValueParts {
    Null,
    Bool(bool),
    Number(serde_json::Number),
    Str(String),
    Array(Vec<serde_json::Value>),
    Object(Vec<(String, serde_json::Value)>),
}

impl ValueParts {
    /// The value that the parts belong to.
    pub open spec fn view(&self) -> JsonModel {
        match self {
            ValueParts::Null => JsonModel::Null,
            ValueParts::Bool(b) => JsonModel::Bool(*b),
            ValueParts::Number(n) => JsonModel::Number(number_model(*n)),
            ValueParts::Str(s) => JsonModel::Str(s@),
            ValueParts::Array(items) => JsonModel::Array(
                Seq::new(items@.len(), |i: int| value_model(items@[i])),
            ),
            ValueParts::Object(members) => JsonModel::Object(
                Seq::new(
                    members@.len(),
                    |i: int| (members@[i].0@, value_model(members@[i].1)),
                ),
            ),
        }
    }

    /// The keys of an object come once each and in their order.
    pub open spec fn ordered(&self) -> bool {
        self matches ValueParts::Object(members) ==> forall|i: int, j: int|
            0 <= i < j < members@.len() ==> text::lex_lt(
                #[trigger] members@[i].0@,
                #[trigger] members@[j].0@,
            )
    }
}

/// Tells the variants of `serde_json::Value` apart. The members of an object
/// come in the order of the `BTreeMap` behind `serde_json::Map`: by key.
#[verifier::external_body]
fn split_value(v: serde_json::Value) -> (r: ValueParts)
    ensures
        r@ == value_model(v),
        r.ordered(),
{
    match v {
        serde_json::Value::Null => ValueParts::Null,
        serde_json::Value::Bool(b) => ValueParts::Bool(b),
        serde_json::Value::Number(n) => ValueParts::Number(n),
        serde_json::Value::String(s) => ValueParts::Str(s),
        serde_json::Value::Array(items) => ValueParts::Array(items),
        serde_json::Value::Object(members) => ValueParts::Object(members.into_iter().collect()),
    }
}

/// Builds a variant of `serde_json::Value`. Members whose keys are distinct and
/// in order are collected into a `serde_json::Map` as they stand.
#[verifier::external_body]
fn join_value(parts: ValueParts) -> (r: serde_json::Value)
    requires
        parts.ordered(),
    ensures
        value_model(r) == parts@,
{
    match parts {
        ValueParts::Null => serde_json::Value::Null,
        ValueParts::Bool(b) => serde_json::Value::Bool(b),
        ValueParts::Number(n) => serde_json::Value::Number(n),
        ValueParts::Str(s) => serde_json::Value::String(s),
        ValueParts::Array(items) => serde_json::Value::Array(items),
        ValueParts::Object(members) => serde_json::Value::Object(members.into_iter().collect()),
    }
}

/// The compact text that `serde_json` writes for a value.
pub uninterp spec fn json_text(m: JsonModel) -> Seq<char>;

/// The value that `serde_json` reads from a text, where the text is JSON.
pub uninterp spec fn json_parsed(text: Seq<char>) -> Option<JsonModel>;

/// The key that `serde_json` takes for a mark of its own: an object that starts
/// with it is not read as an object.
pub open spec fn raw_mark() -> Seq<char> {
    "$serde_json::private::RawValue"@
}

/// A value that holds no fractions, whose integers fit 64 bits, whose objects
/// have every key once and in order and do not start with the reader's own mark,
/// and that is nested at most `depth` deep.
pub open spec fn is_plain(m: JsonModel, depth: nat) -> bool
    decreases m,
{
    match m {
        JsonModel::Null => true,
        JsonModel::Bool(_) => true,
        JsonModel::Str(_) => true,
        JsonModel::Number(NumberModel::Int(n)) => i64::MIN <= n <= u64::MAX,
        JsonModel::Number(NumberModel::Float(_)) => false,
        JsonModel::Array(items) => {
            &&& depth > 0
            &&& forall|i: int|
                0 <= i < items.len() ==> is_plain(#[trigger] items[i], (depth - 1) as nat)
        },
        JsonModel::Object(members) => {
            &&& depth > 0
            &&& forall|i: int|
                0 <= i < members.len() ==> is_plain(
                    (#[trigger] members[i]).1,
                    (depth - 1) as nat,
                )
            &&& forall|i: int, j: int|
                0 <= i < j < members.len() ==> text::lex_lt(
                    (#[trigger] members[i]).0,
                    (#[trigger] members[j]).0,
                )
            &&& members.len() > 0 ==> members[0].0 != raw_mark()
        },
    }
}

spec fn members_plain(members: Seq<(Seq<char>, JsonModel)>, depth: nat) -> bool {
    forall|i: int| 0 <= i < members.len() ==> is_plain((#[trigger] members[i]).1, depth)
}

spec fn members_ordered(members: Seq<(Seq<char>, JsonModel)>) -> bool {
    forall|i: int, j: int|
        0 <= i < j < members.len() ==> text::lex_lt(
            (#[trigger] members[i]).0,
            (#[trigger] members[j]).0,
        )
}

proof fn lemma_set_in_members(
    members: Seq<(Seq<char>, JsonModel)>,
    key: Seq<char>,
    value: JsonModel,
    depth: nat,
)
    requires
        members_plain(members, depth),
        members_ordered(members),
        is_plain(value, depth),
    ensures
        members_plain(set_in(members, key, value), depth),
        members_ordered(set_in(members, key, value)),
        set_in(members, key, value).len() > 0,
        set_in(members, key, value)[0].0 == key || members.len() > 0 && set_in(
            members,
            key,
            value,
        )[0].0 == members[0].0,
        forall|bound: Seq<char>|
            text::lex_lt(bound, key) && (members.len() > 0 ==> text::lex_lt(bound, members[0].0))
                ==> #[trigger] text::lex_lt(bound, set_in(members, key, value)[0].0),
    decreases members.len(),
{
    let after = set_in(members, key, value);
    if members.len() == 0 {
    } else if members[0].0 == key {
        assert forall|i: int, j: int| 0 <= i < j < after.len() implies text::lex_lt(
            (#[trigger] after[i]).0,
            (#[trigger] after[j]).0,
        ) by {
            assert(after[i].0 == members[i].0);
            assert(after[j].0 == members[j].0);
        }
        assert forall|i: int| 0 <= i < after.len() implies is_plain(
            (#[trigger] after[i]).1,
            depth,
        ) by {
            if i > 0 {
                assert(after[i] == members[i]);
            }
        }
    } else if text::lex_lt(key, members[0].0) {
        assert forall|i: int, j: int| 0 <= i < j < after.len() implies text::lex_lt(
            (#[trigger] after[i]).0,
            (#[trigger] after[j]).0,
        ) by {
            assert(after[j] == members[j - 1]);
            if i > 0 {
                assert(after[i] == members[i - 1]);
            } else if j > 1 {
                assert(text::lex_lt(members[0].0, members[j - 1].0));
                text::lemma_lex_lt_transitive(key, members[0].0, members[j - 1].0);
            }
        }
        assert forall|i: int| 0 <= i < after.len() implies is_plain(
            (#[trigger] after[i]).1,
            depth,
        ) by {
            if i > 0 {
                assert(after[i] == members[i - 1]);
            }
        }
    } else {
        let rest = members.skip(1);
        assert forall|i: int| 0 <= i < rest.len() implies is_plain(
            (#[trigger] rest[i]).1,
            depth,
        ) by {
            assert(rest[i] == members[i + 1]);
        }
        assert forall|i: int, j: int| 0 <= i < j < rest.len() implies text::lex_lt(
            (#[trigger] rest[i]).0,
            (#[trigger] rest[j]).0,
        ) by {
            assert(rest[i] == members[i + 1]);
            assert(rest[j] == members[j + 1]);
        }
        lemma_set_in_members(rest, key, value, depth);
        let tail = set_in(rest, key, value);
        let head = members[0].0;
        text::lemma_lex_lt_total(key, head);
        if rest.len() > 0 {
            assert(rest[0] == members[1]);
            assert(text::lex_lt(members[0].0, members[1].0));
        }
        assert(text::lex_lt(head, tail[0].0));
        assert forall|i: int, j: int| 0 <= i < j < after.len() implies text::lex_lt(
            (#[trigger] after[i]).0,
            (#[trigger] after[j]).0,
        ) by {
            assert(after[j] == tail[j - 1]);
            if i > 0 {
                assert(after[i] == tail[i - 1]);
            } else if j > 1 {
                assert(text::lex_lt(tail[0].0, tail[j - 1].0));
                text::lemma_lex_lt_transitive(head, tail[0].0, tail[j - 1].0);
            }
        }
        assert forall|i: int| 0 <= i < after.len() implies is_plain(
            (#[trigger] after[i]).1,
            depth,
        ) by {
            if i > 0 {
                assert(after[i] == tail[i - 1]);
            }
        }
    }
}

/// A plain object stays plain with another plain member under an ordinary key.
pub broadcast proof fn lemma_plain_with(o: JsonModel, key: Seq<char>, value: JsonModel, depth: nat)
    requires
        o is Object,
        is_plain(o, depth),
        is_plain(value, (depth - 1) as nat),
        key != raw_mark(),
    ensures
        #[trigger] is_plain(o.with(key, value), depth),
{
    let members = o->Object_0;
    assert(members_plain(members, (depth - 1) as nat));
    assert(members_ordered(members));
    lemma_set_in_members(members, key, value, (depth - 1) as nat);
    assert(members_plain(set_in(members, key, value), (depth - 1) as nat));
    assert(members_ordered(set_in(members, key, value)));
}

/// How deep a text may nest for `serde_json` to read it.
pub const MAX_DEPTH: usize = 127;

/// `Display` of `serde_json::Value`: the compact text. Control characters are
/// escaped in it, so it stays on one line; an object starts with its brace; a
/// plain value that the reader's limit on nesting admits is read back from it. Of
/// an object that starts with the reader's own mark nothing is claimed: where the
/// `raw_value` feature is built in, it is read as what stands under the mark, or
/// not at all.
#[verifier::external_body]
fn value_to_string(v: &serde_json::Value) -> (r: String)
    ensures
        r@ == json_text(value_model(*v)),
        !r@.contains('\n'),
        !r@.contains('\r'),
        value_model(*v) is Object ==> r@.len() > 0 && r@[0] == '{',
        is_plain(value_model(*v), MAX_DEPTH as nat) ==> json_parsed(r@) == Some(value_model(*v)),
{
    v.to_string()
}

/// `serde_json::from_str` into a `Value`.
#[verifier::external_body]
fn value_from_str(text: &str) -> (r: Option<serde_json::Value>)
    ensures
        match r {
            Some(v) => json_parsed(text@) == Some(value_model(v)),
            None => json_parsed(text@) is None,
        },
{
    serde_json::from_str::<serde_json::Value>(text).ok()
}

/// The library's value for a `serde_json::Value`.
pub fn from_value(v: serde_json::Value) -> (r: Json)
    ensures
        r@ == value_model(v),
    decreases value_model(v),
{
    let parts = split_value(v);
    match parts {
        ValueParts::Null => Json::Null,
        ValueParts::Bool(b) => Json::Bool(b),
        ValueParts::Number(n) => Json::Number(n),
        ValueParts::Str(s) => Json::Str(s),
        ValueParts::Array(items) => {
            let ghost all = items@;
            let mut out: Vec<Json> = Vec::new();
            let mut rest = items;
            while rest.len() > 0
                invariant
                    out@.len() + rest@.len() == all.len(),
                    value_model(v) is Array,
                    value_model(v)->Array_0.len() == all.len(),
                    forall|i: int|
                        0 <= i < all.len() ==> (#[trigger] value_model(v)->Array_0[i])
                            == value_model(all[i]),
                    rest@ == all.skip(out@.len() as int),
                    forall|i: int|
                        0 <= i < out@.len() ==> (#[trigger] out@[i])@ == value_model(all[i]),
                decreases rest@.len(),
            {
                let ghost k = out@.len() as int;
                let item = rest.remove(0);
                assert(item == all[k]);
                assert(value_model(v)->Array_0[k] == value_model(item));
                assert(decreases_to!(value_model(v) => value_model(v)->Array_0));
                assert(decreases_to!(value_model(v)->Array_0 => value_model(v)->Array_0[k]));
                out.push(from_value(item));
                assert(rest@ =~= all.skip(k + 1));
            }
            let r = Json::Array(out);
            assert(r@->Array_0 =~= value_model(v)->Array_0);
            r
        },
        ValueParts::Object(members) => {
            let ghost all = members@;
            let mut out: Vec<(String, Json)> = Vec::new();
            let mut rest = members;
            while rest.len() > 0
                invariant
                    out@.len() + rest@.len() == all.len(),
                    value_model(v) is Object,
                    value_model(v)->Object_0.len() == all.len(),
                    forall|i: int|
                        0 <= i < all.len() ==> (#[trigger] value_model(v)->Object_0[i]) == (
                            all[i].0@,
                            value_model(all[i].1),
                        ),
                    rest@ == all.skip(out@.len() as int),
                    forall|i: int|
                        0 <= i < out@.len() ==> (#[trigger] out@[i]).0@ == all[i].0@ && out@[i].1@
                            == value_model(all[i].1),
                decreases rest@.len(),
            {
                let ghost k = out@.len() as int;
                let member = rest.remove(0);
                assert(member == all[k]);
                assert(value_model(v)->Object_0[k].1 == value_model(member.1));
                assert(decreases_to!(value_model(v) => value_model(v)->Object_0));
                assert(decreases_to!(value_model(v)->Object_0 => value_model(v)->Object_0[k]));
                assert(decreases_to!(value_model(v)->Object_0[k] => value_model(v)->Object_0[k].1));
                out.push((member.0, from_value(member.1)));
                assert(rest@ =~= all.skip(k + 1));
            }
            let o = JsonObject { members: out };
            assert(o@ =~= value_model(v)->Object_0);
            Json::Object(o)
        },
    }
}

impl Json {
    /// The `serde_json::Value` for this value.
    pub fn to_value(&self) -> (r: serde_json::Value)
        ensures
            value_model(r) == self@,
        decreases self,
    {
        match self {
            Json::Null => join_value(ValueParts::Null),
            Json::Bool(b) => join_value(ValueParts::Bool(*b)),
            Json::Number(n) => join_value(ValueParts::Number(n.clone())),
            Json::Str(s) => join_value(ValueParts::Str(s.clone())),
            Json::Array(items) => {
                let mut out: Vec<serde_json::Value> = Vec::new();
                let mut i: usize = 0;
                while i < items.len()
                    invariant
                        i <= items@.len(),
                        out@.len() == i,
                        decreases_to!(self => items),
                        forall|j: int|
                            0 <= j < i ==> value_model(#[trigger] out@[j]) == items@[j]@,
                    decreases items@.len() - i,
                {
                    let ghost e = items@[i as int];
                    assert(decreases_to!(items => items@));
                    assert(decreases_to!(items@ => e));
                    out.push(items[i].to_value());
                    i += 1;
                }
                let parts = ValueParts::Array(out);
                assert(parts@->Array_0 =~= self@->Array_0);
                join_value(parts)
            },
            Json::Object(o) => o.to_value(),
        }
    }

    /// The compact JSON text of this value.
    pub fn to_text(&self) -> (r: String)
        ensures
            r@ == json_text(self@),
            !r@.contains('\n'),
            !r@.contains('\r'),
            self@ is Object ==> r@.len() > 0 && r@[0] == '{',
            is_plain(self@, MAX_DEPTH as nat) ==> json_parsed(r@) == Some(self@),
    {
        let v = self.to_value();
        value_to_string(&v)
    }
}

impl JsonObject {
    /// The `serde_json::Value` for this object.
    pub fn to_value(&self) -> (r: serde_json::Value)
        ensures
            value_model(r) == JsonModel::Object(self@),
        decreases self,
    {
        proof {
            use_type_invariant(self);
        }
        let mut out: Vec<(String, serde_json::Value)> = Vec::new();
        let mut i: usize = 0;
        while i < self.members.len()
            invariant
                i <= self.members@.len(),
                out@.len() == i,
                forall|j: int|
                    0 <= j < i ==> (#[trigger] out@[j]).0@ == self.members@[j].0@ && value_model(
                        out@[j].1,
                    ) == self.members@[j].1@,
            decreases self.members@.len() - i,
        {
            let ghost e = self.members@[i as int];
            assert(decreases_to!(self.members@ => e));
            let v = self.members[i].1.to_value();
            out.push((self.members[i].0.clone(), v));
            i += 1;
        }
        let parts = ValueParts::Object(out);
        assert(parts@->Object_0 =~= self@);
        join_value(parts)
    }
}

/// The JSON value that `text` is, if it is one.
pub fn parse(text: &str) -> (r: Option<Json>)
    ensures
        match r {
            Some(j) => json_parsed(text@) == Some(j@),
            None => json_parsed(text@) is None,
        },
{
    match value_from_str(text) {
        Some(v) => Some(from_value(v)),
        None => None,
    }
}

} // verus!
