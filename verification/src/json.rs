//! JSON values as plain data.
//!
//! Text is read and written by `serde_json`. In between, the shell works on
//! [`Json`], whose meaning is a [`JsonView`]: an object is a finite map, so
//! neither the order of its members nor a repeated key (the last one counts)
//! shows.

use vstd::prelude::*;

use crate::text::{chars_eq, chars_of, str_eq};

verus! {

/// A JSON number as `serde_json` holds it.
#[verifier::external_type_specification]
#[verifier::external_body]
pub struct ExNumber(serde_json::Number);

/// A JSON document as `serde_json` holds it.
#[verifier::external_type_specification]
#[verifier::external_body]
pub struct ExValue(serde_json::Value);

/// An error of `serde_json`.
#[verifier::external_type_specification]
#[verifier::external_body]
pub struct ExError(serde_json::Error);

/// A JSON value.
pub enum Json {
    Null,
    Bool(bool),
    /// An integer that the shell writes.
    UInt(u64),
    /// A number that was read.
    Number(serde_json::Number),
    Str(String),
    Arr(Vec<Json>),
    Obj(Vec<(String, Json)>),
}

/// The meaning of a JSON value.
#[verifier::ext_equal]
pub enum JsonView {
    Null,
    Bool(bool),
    Integer(int),
    /// A number that is no integer of 64 bits.
    Float(serde_json::Number),
    Str(Seq<char>),
    Arr(Seq<JsonView>),
    Obj(Map<Seq<char>, JsonView>),
}

impl JsonView {
    /// The member `key` of an object.
    pub open spec fn get(self, key: Seq<char>) -> Option<JsonView> {
        match self {
            JsonView::Obj(m) => if m.dom().contains(key) {
                Some(m[key])
            } else {
                None
            },
            _ => None,
        }
    }

    /// The text of a string.
    pub open spec fn text(self) -> Option<Seq<char>> {
        match self {
            JsonView::Str(s) => Some(s),
            _ => None,
        }
    }

    /// The value of a boolean.
    pub open spec fn truth(self) -> Option<bool> {
        match self {
            JsonView::Bool(b) => Some(b),
            _ => None,
        }
    }

    /// Whether arrays and objects are nested at most `n` deep.
    pub open spec fn nested(self, n: nat) -> bool
        decreases n,
    {
        match self {
            JsonView::Arr(s) => n > 0 && forall|i: int|
                0 <= i < s.len() ==> (#[trigger] s[i]).nested((n - 1) as nat),
            JsonView::Obj(m) => n > 0 && forall|k: Seq<char>| #[trigger]
                m.dom().contains(k) ==> m[k].nested((n - 1) as nat),
            _ => true,
        }
    }

    /// Whether every number, down to nesting depth `n`, is an integer.
    pub open spec fn integral(self, n: nat) -> bool
        decreases n,
    {
        match self {
            JsonView::Float(_) => false,
            JsonView::Arr(s) => n > 0 && forall|i: int|
                0 <= i < s.len() ==> (#[trigger] s[i]).integral((n - 1) as nat),
            JsonView::Obj(m) => n > 0 && forall|k: Seq<char>| #[trigger]
                m.dom().contains(k) ==> m[k].integral((n - 1) as nat),
            _ => true,
        }
    }

    /// Whether two values are the same, down to nesting depth `n`, but for
    /// numbers that are no integers: where one has such a number, the other
    /// has one too.
    pub open spec fn alike(self, other: JsonView, n: nat) -> bool
        decreases n,
    {
        match (self, other) {
            (JsonView::Float(_), JsonView::Float(_)) => true,
            (JsonView::Arr(s), JsonView::Arr(t)) => n > 0 && s.len() == t.len() && forall|i: int|
                0 <= i < s.len() ==> (#[trigger] s[i]).alike(t[i], (n - 1) as nat),
            (JsonView::Obj(m), JsonView::Obj(o)) => n > 0 && m.dom() == o.dom() && forall|
                k: Seq<char>,
            | #[trigger]
                m.dom().contains(k) ==> m[k].alike(o[k], (n - 1) as nat),
            _ => self == other,
        }
    }
}

/// Values without any number but integers are alike only where they are the
/// same.
pub proof fn lemma_alike_integral(a: JsonView, b: JsonView, n: nat)
    requires
        a.alike(b, n),
        a.integral(n),
    ensures
        a == b,
    decreases n,
{
    match (a, b) {
        (JsonView::Arr(s), JsonView::Arr(t)) => {
            assert forall|i: int| 0 <= i < s.len() implies s[i] == t[i] by {
                assert(s[i].alike(t[i], (n - 1) as nat));
                lemma_alike_integral(s[i], t[i], (n - 1) as nat);
            }
            assert(s =~= t);
        },
        (JsonView::Obj(m), JsonView::Obj(o)) => {
            assert forall|k: Seq<char>| m.dom().contains(k) implies m[k] == o[k] by {
                assert(m[k].alike(o[k], (n - 1) as nat));
                lemma_alike_integral(m[k], o[k], (n - 1) as nat);
            }
            assert(m =~= o);
        },
        _ => {},
    }
}

/// The depth to which `serde_json` reads nested arrays and objects.
pub open spec fn max_depth() -> nat {
    127
}

/// The depth to which values are written. Writing recurses, so it is bounded;
/// the bound leaves room round a value that was read.
pub const WRITE_DEPTH: usize = 160;

/// The integer that a number of `serde_json` holds, where it holds one of 64
/// bits, signed or unsigned.
pub uninterp spec fn integer_of(n: serde_json::Number) -> Option<int>;

/// The meaning of a number of `serde_json`.
pub open spec fn numeral(n: serde_json::Number) -> JsonView {
    match integer_of(n) {
        Some(i) => JsonView::Integer(i),
        None => JsonView::Float(n),
    }
}

/// The meanings of the elements of an array.
pub open spec fn arr_view(s: Seq<Json>) -> Seq<JsonView>
    decreases s,
{
    if s.len() == 0 {
        Seq::empty()
    } else {
        arr_view(s.drop_last()).push(s[s.len() - 1].view())
    }
}

/// The meaning of the members of an object. Of a repeated key the last counts.
pub open spec fn obj_view(s: Seq<(String, Json)>) -> Map<Seq<char>, JsonView>
    decreases s,
{
    if s.len() == 0 {
        Map::empty()
    } else {
        obj_view(s.drop_last()).insert(s[s.len() - 1].0@, s[s.len() - 1].1.view())
    }
}

impl Json {
    /// The meaning of the value.
    pub open spec fn view(&self) -> JsonView
        decreases self,
    {
        match self {
            Json::Null => JsonView::Null,
            Json::Bool(b) => JsonView::Bool(*b),
            Json::UInt(u) => JsonView::Integer(*u as int),
            Json::Number(n) => numeral(*n),
            Json::Str(s) => JsonView::Str(s@),
            Json::Arr(v) => JsonView::Arr(arr_view(v@)),
            Json::Obj(v) => JsonView::Obj(obj_view(v@)),
        }
    }

    /// A JSON string.
    pub fn str(s: &str) -> (out: Json)
        ensures
            out@ == JsonView::Str(s@),
    {
        Json::Str(s.to_string())
    }

    /// A JSON string, or null where there is none.
    pub fn opt_str(s: &Option<String>) -> (out: Json)
        ensures
            out@ == opt_str_view(crate::text::opt_text(*s)),
    {
        match s {
            Some(t) => Json::Str(t.clone()),
            None => Json::Null,
        }
    }

    /// An object without members.
    pub fn object() -> (out: Json)
        ensures
            out@ == JsonView::Obj(Map::empty()),
    {
        Json::Obj(Vec::new())
    }

    /// Sets a member of an object.
    pub fn set(&mut self, key: &str, value: Json)
        requires
            old(self)@ is Obj,
        ensures
            final(self)@ == JsonView::Obj(old(self)@->Obj_0.insert(key@, value@)),
    {
        match self {
            Json::Obj(members) => {
                let ghost before = members@;
                members.push((key.to_string(), value));
                assert(members@.drop_last() =~= before);
            },
            _ => {},
        }
    }

    /// The object with one more member.
    pub fn with(self, key: &str, value: Json) -> (out: Json)
        requires
            self@ is Obj,
        ensures
            out@ == JsonView::Obj(self@->Obj_0.insert(key@, value@)),
    {
        let mut out = self;
        out.set(key, value);
        out
    }

    /// The member `key` of an object.
    pub fn get(&self, key: &str) -> (out: Option<&Json>)
        ensures
            match out {
                Some(j) => self@.get(key@) == Some(j@),
                None => self@.get(key@) is None,
            },
    {
        match self {
            Json::Obj(members) => {
                let wanted = chars_of(key);
                let mut i: usize = members.len();
                assert(members@.take(members@.len() as int) =~= members@);
                while i > 0
                    invariant
                        i <= members@.len(),
                        wanted@ == key@,
                        self@ == JsonView::Obj(obj_view(members@)),
                        obj_view(members@).dom().contains(key@) == obj_view(
                            members@.take(i as int),
                        ).dom().contains(key@),
                        obj_view(members@).dom().contains(key@) ==> obj_view(members@)[key@]
                            == obj_view(members@.take(i as int))[key@],
                    decreases i,
                {
                    assert(members@.take(i as int).drop_last() =~= members@.take(i - 1));
                    if chars_eq(&chars_of(members[i - 1].0.as_str()), &wanted) {
                        return Some(&members[i - 1].1);
                    }
                    i = i - 1;
                }
                assert(members@.take(0) =~= Seq::<(String, Json)>::empty());
                None
            },
            _ => None,
        }
    }

    /// The text of a string.
    pub fn as_str(&self) -> (out: Option<String>)
        ensures
            crate::text::opt_text(out) == self@.text(),
    {
        match self {
            Json::Str(s) => Some(s.clone()),
            _ => None,
        }
    }

    /// The value of a boolean.
    pub fn as_bool(&self) -> (out: Option<bool>)
        ensures
            out == self@.truth(),
    {
        match self {
            Json::Bool(b) => Some(*b),
            _ => None,
        }
    }

    /// The text of the member `key`, where it is a string.
    pub fn get_str(&self, key: &str) -> (out: Option<String>)
        ensures
            crate::text::opt_text(out) == get_text(self@, key@),
    {
        match self.get(key) {
            Some(j) => j.as_str(),
            None => None,
        }
    }

    /// The value of the member `key`, where it is a boolean.
    pub fn get_bool(&self, key: &str) -> (out: Option<bool>)
        ensures
            out == get_truth(self@, key@),
    {
        match self.get(key) {
            Some(j) => j.as_bool(),
            None => None,
        }
    }
}

/// The meaning of an optional string.
pub open spec fn opt_str_view(s: Option<Seq<char>>) -> JsonView {
    match s {
        Some(t) => JsonView::Str(t),
        None => JsonView::Null,
    }
}

/// The text of the member `key`, where it is a string.
pub open spec fn get_text(j: JsonView, key: Seq<char>) -> Option<Seq<char>> {
    match j.get(key) {
        Some(v) => v.text(),
        None => None,
    }
}

/// The value of the member `key`, where it is a boolean.
pub open spec fn get_truth(j: JsonView, key: Seq<char>) -> Option<bool> {
    match j.get(key) {
        Some(v) => v.truth(),
        None => None,
    }
}

/// The elements of an array keep their meanings.
pub proof fn lemma_arr_view(s: Seq<Json>)
    ensures
        arr_view(s).len() == s.len(),
        forall|i: int| 0 <= i < s.len() ==> #[trigger] arr_view(s)[i] == s[i]@,
    decreases s.len(),
{
    if s.len() > 0 {
        lemma_arr_view(s.drop_last());
        assert forall|i: int| 0 <= i < s.len() implies #[trigger] arr_view(s)[i] == s[i]@ by {
            if i < s.len() - 1 {
                assert(arr_view(s.drop_last())[i] == s.drop_last()[i]@);
            }
        }
    }
}

// ---------------------------------------------------------------------------
// Reading and writing
// ---------------------------------------------------------------------------

/// What a `serde_json` document holds.
pub uninterp spec fn document(v: serde_json::Value) -> JsonView;

/// What `serde_json` reads from a text: the meaning of the document, or
/// nothing where the text is no JSON document, holds a number out of range or
/// is nested too deep.
pub uninterp spec fn json_parse(text: Seq<char>) -> Option<JsonView>;

/// The compact text that `serde_json` writes for a document.
pub uninterp spec fn json_text(j: JsonView) -> Seq<char>;

/// The indented text that `serde_json` writes for a document.
pub uninterp spec fn json_pretty(j: JsonView) -> Seq<char>;

/// `serde_json::from_str` as a `Value`. Reading depends on the text alone,
/// and nothing is read that is nested deeper than 127 arrays and objects.
#[verifier::external_body]
fn read_document(text: &str) -> (out: Result<serde_json::Value, serde_json::Error>)
    ensures
        match out {
            Ok(v) => json_parse(text@) == Some(document(v)) && document(v).nested(max_depth()),
            Err(_) => json_parse(text@) is None,
        },
{
    serde_json::from_str::<serde_json::Value>(text)
}

/// One level of a document.
enum Level {
    Null,
    Bool(bool),
    Number(serde_json::Number),
    Str(String),
    Arr(Vec<serde_json::Value>),
    Obj(Vec<(String, serde_json::Value)>),
}

/// What a list of documents holds.
spec fn documents(s: Seq<serde_json::Value>) -> Seq<JsonView> {
    s.map_values(|v: serde_json::Value| document(v))
}

/// What the members of an object hold. Of a repeated key the last counts.
spec fn members(s: Seq<(String, serde_json::Value)>) -> Map<Seq<char>, JsonView>
    decreases s.len(),
{
    if s.len() == 0 {
        Map::empty()
    } else {
        members(s.drop_last()).insert(s.last().0@, document(s.last().1))
    }
}

/// Whether no key is repeated.
spec fn distinct_keys(s: Seq<(String, serde_json::Value)>) -> bool {
    forall|i: int, j: int|
        0 <= i < j < s.len() ==> (#[trigger] s[i]).0@ != (#[trigger] s[j]).0@
}

proof fn lemma_members(s: Seq<(String, serde_json::Value)>, i: int)
    requires
        distinct_keys(s),
        0 <= i < s.len(),
    ensures
        members(s).dom().contains(s[i].0@),
        members(s)[s[i].0@] == document(s[i].1),
    decreases s.len(),
{
    if i < s.len() - 1 {
        assert(s.drop_last()[i] == s[i]);
        lemma_members(s.drop_last(), i);
        assert(s[i].0@ != s[s.len() - 1].0@);
    }
}

/// What the level holds.
spec fn level_view(level: Level) -> JsonView {
    match level {
        Level::Null => JsonView::Null,
        Level::Bool(b) => JsonView::Bool(b),
        Level::Number(n) => numeral(n),
        Level::Str(s) => JsonView::Str(s@),
        Level::Arr(v) => JsonView::Arr(documents(v@)),
        Level::Obj(v) => JsonView::Obj(members(v@)),
    }
}

/// The variants of `serde_json::Value`, told apart: each holds what its fields
/// hold, and its map is handed out member by member, each key once.
#[verifier::external_body]
fn open_level(v: serde_json::Value) -> (out: Level)
    ensures
        level_view(out) == document(v),
        match out {
            Level::Obj(m) => distinct_keys(m@),
            _ => true,
        },
{
    match v {
        serde_json::Value::Null => Level::Null,
        serde_json::Value::Bool(b) => Level::Bool(b),
        serde_json::Value::Number(n) => Level::Number(n),
        serde_json::Value::String(s) => Level::Str(s),
        serde_json::Value::Array(a) => Level::Arr(a),
        serde_json::Value::Object(m) => Level::Obj(m.into_iter().collect()),
    }
}

/// The variants of `serde_json::Value`, put together: each holds what its
/// fields hold. Its map takes in members with different keys.
#[verifier::external_body]
fn close_level(level: Level) -> (out: serde_json::Value)
    requires
        level matches Level::Obj(m) ==> distinct_keys(m@),
    ensures
        document(out) == level_view(level),
{
    match level {
        Level::Null => serde_json::Value::Null,
        Level::Bool(b) => serde_json::Value::Bool(b),
        Level::Number(n) => serde_json::Value::Number(n),
        Level::Str(s) => serde_json::Value::String(s),
        Level::Arr(a) => serde_json::Value::Array(a),
        Level::Obj(m) => serde_json::Value::Object(m.into_iter().collect()),
    }
}

/// `serde_json::Number::from` on an unsigned integer, which holds it.
#[verifier::external_body]
fn number_from(u: u64) -> (out: serde_json::Number)
    ensures
        integer_of(out) == Some(u as int),
{
    serde_json::Number::from(u)
}

/// `serde_json::Number::clone`: the same number.
#[verifier::external_body]
fn copy_number(n: &serde_json::Number) -> (out: serde_json::Number)
    ensures
        out == *n,
{
    n.clone()
}

proof fn lemma_element_nested(j: JsonView, n: nat, i: int)
    requires
        j.nested(n),
        j is Arr,
        0 <= i < j->Arr_0.len(),
    ensures
        n > 0,
        j->Arr_0[i].nested((n - 1) as nat),
{
    match j {
        JsonView::Arr(s) => {
            assert(s[i].nested((n - 1) as nat));
        },
        _ => {},
    }
}

proof fn lemma_member_nested(j: JsonView, n: nat, key: Seq<char>)
    requires
        j.nested(n),
        j is Obj,
        j->Obj_0.dom().contains(key),
    ensures
        n > 0,
        j->Obj_0[key].nested((n - 1) as nat),
{
    match j {
        JsonView::Obj(m) => {
            assert(m[key].nested((n - 1) as nat));
        },
        _ => {},
    }
}

/// Reads a document level by level.
fn from_document(v: serde_json::Value, depth: usize) -> (out: Json)
    requires
        document(v).nested(depth as nat),
    ensures
        out@ == document(v),
    decreases depth,
{
    let ghost whole = document(v);
    match open_level(v) {
        Level::Null => Json::Null,
        Level::Bool(b) => Json::Bool(b),
        Level::Number(n) => Json::Number(n),
        Level::Str(s) => Json::Str(s),
        Level::Arr(items) => {
            let ghost all = items@;
            let mut out: Vec<Json> = Vec::new();
            for item in it: items.into_iter()
                invariant
                    it.seq() == all,
                    whole == JsonView::Arr(documents(all)),
                    whole.nested(depth as nat),
                    out@.len() == it.index(),
                    forall|k: int|
                        0 <= k < out@.len() ==> (#[trigger] out@[k])@ == documents(all)[k],
            {
                proof {
                    let k = it.index() as int;
                    assert(item == all[k]);
                    lemma_element_nested(whole, depth as nat, k);
                }
                out.push(from_document(item, depth - 1));
            }
            proof {
                lemma_arr_view(out@);
                assert(arr_view(out@) =~= documents(all));
            }
            Json::Arr(out)
        },
        Level::Obj(pairs) => {
            let ghost all = pairs@;
            let mut out: Vec<(String, Json)> = Vec::new();
            for pair in it: pairs.into_iter()
                invariant
                    it.seq() == all,
                    distinct_keys(all),
                    whole == JsonView::Obj(members(all)),
                    whole.nested(depth as nat),
                    out@.len() == it.index(),
                    obj_view(out@) == members(all.take(it.index() as int)),
            {
                let ghost before = out@;
                let ghost k = it.index() as int;
                proof {
                    assert(pair == all[k]);
                    lemma_members(all, k);
                    lemma_member_nested(whole, depth as nat, all[k].0@);
                }
                let (key, value) = pair;
                out.push((key, from_document(value, depth - 1)));
                proof {
                    assert(out@.drop_last() =~= before);
                    assert(all.take(k + 1).drop_last() =~= all.take(k));
                }
            }
            assert(all.take(all.len() as int) =~= all);
            Json::Obj(out)
        },
    }
}

proof fn lemma_keys(s: Seq<(String, serde_json::Value)>, key: Seq<char>)
    ensures
        members(s).dom().contains(key) <==> exists|i: int|
            0 <= i < s.len() && (#[trigger] s[i]).0@ == key,
    decreases s.len(),
{
    if s.len() > 0 {
        let front = s.drop_last();
        lemma_keys(front, key);
        if exists|i: int| 0 <= i < s.len() && (#[trigger] s[i]).0@ == key {
            let i = choose|i: int| 0 <= i < s.len() && (#[trigger] s[i]).0@ == key;
            if i < s.len() - 1 {
                assert(front[i].0@ == key);
            }
        }
        if members(front).dom().contains(key) {
            let i = choose|i: int| 0 <= i < front.len() && (#[trigger] front[i]).0@ == key;
            assert(s[i].0@ == key);
        }
        assert(s[s.len() - 1] == s.last());
    }
}

proof fn lemma_obj_view_first(s: Seq<(String, Json)>)
    requires
        s.len() > 0,
    ensures
        ({
            let rest = obj_view(s.skip(1));
            obj_view(s) == (if rest.dom().contains(s[0].0@) {
                rest
            } else {
                rest.insert(s[0].0@, s[0].1@)
            })
        }),
    decreases s.len(),
{
    let front = s.drop_last();
    if front.len() == 0 {
        assert(s.skip(1) =~= Seq::<(String, Json)>::empty());
        assert(front =~= Seq::<(String, Json)>::empty());
    } else {
        lemma_obj_view_first(front);
        assert(s.skip(1).drop_last() =~= front.skip(1));
        assert(s.skip(1).last() == s.last());
        assert(obj_view(s) =~= obj_view(front).insert(s.last().0@, s.last().1@));
        let rest = obj_view(s.skip(1));
        assert(obj_view(s) =~= (if rest.dom().contains(s[0].0@) {
            rest
        } else {
            rest.insert(s[0].0@, s[0].1@)
        }));
    }
}

fn has_key(list: &Vec<(String, serde_json::Value)>, key: &str) -> (yes: bool)
    ensures
        yes == exists|i: int| 0 <= i < list@.len() && (#[trigger] list@[i]).0@ == key@,
{
    let mut i: usize = 0;
    while i < list.len()
        invariant
            i <= list@.len(),
            forall|k: int| 0 <= k < i ==> (#[trigger] list@[k]).0@ != key@,
        decreases list@.len() - i,
    {
        if str_eq(list[i].0.as_str(), key) {
            return true;
        }
        i = i + 1;
    }
    false
}

/// Builds a document level by level.
fn to_document(j: &Json) -> (out: serde_json::Value)
    ensures
        document(out) == j@,
    decreases j,
{
    match j {
        Json::Null => close_level(Level::Null),
        Json::Bool(b) => close_level(Level::Bool(*b)),
        Json::UInt(u) => close_level(Level::Number(number_from(*u))),
        Json::Number(n) => close_level(Level::Number(copy_number(n))),
        Json::Str(s) => close_level(Level::Str(s.clone())),
        Json::Arr(items) => {
            let mut out: Vec<serde_json::Value> = Vec::new();
            let mut i: usize = 0;
            while i < items.len()
                invariant
                    i <= items@.len(),
                    out@.len() == i,
                    *j == Json::Arr(*items),
                    forall|k: int|
                        0 <= k < i ==> document(#[trigger] out@[k]) == items@[k]@,
                decreases items@.len() - i,
            {
                assert(decreases_to!(*j => j->Arr_0@));
                assert(decreases_to!(j->Arr_0@ => j->Arr_0@[i as int]));
                out.push(to_document(&items[i]));
                i = i + 1;
            }
            proof {
                lemma_arr_view(items@);
                assert(documents(out@) =~= arr_view(items@));
            }
            close_level(Level::Arr(out))
        },
        Json::Obj(pairs) => {
            let mut out: Vec<(String, serde_json::Value)> = Vec::new();
            let mut i: usize = pairs.len();
            assert(pairs@.skip(i as int) =~= Seq::<(String, Json)>::empty());
            while i > 0
                invariant
                    i <= pairs@.len(),
                    *j == Json::Obj(*pairs),
                    distinct_keys(out@),
                    members(out@) == obj_view(pairs@.skip(i as int)),
                decreases i,
            {
                let ghost before = out@;
                i = i - 1;
                proof {
                    lemma_obj_view_first(pairs@.skip(i as int));
                    assert(pairs@.skip(i as int).skip(1) =~= pairs@.skip(i + 1));
                    lemma_keys(out@, pairs@[i as int].0@);
                }
                if !has_key(&out, pairs[i].0.as_str()) {
                    assert(decreases_to!(*j => j->Obj_0@));
                    assert(decreases_to!(j->Obj_0@ => j->Obj_0@[i as int]));
                    assert(decreases_to!(j->Obj_0@[i as int] => j->Obj_0@[i as int].1));
                    out.push((pairs[i].0.clone(), to_document(&pairs[i].1)));
                    assert(out@.drop_last() =~= before);
                }
            }
            assert(pairs@.skip(0) =~= pairs@);
            close_level(Level::Obj(out))
        },
    }
}

/// `serde_json::to_string` on a `Value`. Writing a `Value` to memory does not
/// fail: its keys are strings and its numbers are finite. The text depends on
/// what the document holds. Where nothing is nested too deep for reading, it
/// reads back as the same document, but for the numbers that are no integers:
/// each is written as the shortest decimal that stands for it, with a point or
/// an exponent, and reads back as such a number, not always to the last bit.
#[verifier::external_body]
fn write_document(v: &serde_json::Value) -> (out: Result<String, serde_json::Error>)
    requires
        document(*v).nested(WRITE_DEPTH as nat),
    ensures
        out is Ok,
        out->Ok_0@ == json_text(document(*v)),
        document(*v).nested(max_depth()) ==> match json_parse(out->Ok_0@) {
            Some(back) => document(*v).alike(back, max_depth()),
            None => false,
        },
{
    serde_json::to_string(v)
}

/// `serde_json::to_string_pretty` on a `Value`, which does not fail either.
#[verifier::external_body]
fn write_pretty(v: &serde_json::Value) -> (out: Result<String, serde_json::Error>)
    requires
        document(*v).nested(WRITE_DEPTH as nat),
    ensures
        out is Ok,
        out->Ok_0@ == json_pretty(document(*v)),
{
    serde_json::to_string_pretty(v)
}

impl Json {
    /// Reads a JSON document.
    pub fn parse(text: &str) -> (out: Option<Json>)
        ensures
            match out {
                Some(j) => json_parse(text@) == Some(j@) && j@.nested(max_depth()),
                None => json_parse(text@) is None,
            },
    {
        match read_document(text) {
            Ok(v) => Some(from_document(v, 127)),
            Err(_) => None,
        }
    }

    /// Writes the value as compact JSON.
    pub fn to_text(&self) -> (out: String)
        requires
            self@.nested(WRITE_DEPTH as nat),
        ensures
            out@ == json_text(self@),
            self@.nested(max_depth()) ==> match json_parse(out@) {
                Some(back) => self@.alike(back, max_depth()),
                None => false,
            },
            self@.nested(max_depth()) && self@.integral(max_depth()) ==> json_parse(out@) == Some(
                self@,
            ),
    {
        match write_document(&to_document(self)) {
            Ok(s) => {
                proof {
                    if self@.nested(max_depth()) && self@.integral(max_depth()) {
                        lemma_alike_integral(self@, json_parse(s@)->0, max_depth());
                    }
                }
                s
            },
            Err(_) => String::new(),
        }
    }

    /// Writes the value as indented JSON.
    pub fn to_pretty(&self) -> (out: String)
        requires
            self@.nested(WRITE_DEPTH as nat),
        ensures
            out@ == json_pretty(self@),
    {
        match write_pretty(&to_document(self)) {
            Ok(s) => s,
            Err(_) => "{}".to_string(),
        }
    }
}

/// A value that is nested at most `n` deep is nested at most `m` deep for
/// every larger `m`.
pub proof fn lemma_nested_deeper(j: JsonView, n: nat, m: nat)
    requires
        n <= m,
        j.nested(n),
    ensures
        j.nested(m),
    decreases n,
{
    match j {
        JsonView::Arr(s) => {
            assert forall|i: int| 0 <= i < s.len() implies (#[trigger] s[i]).nested(
                (m - 1) as nat,
            ) by {
                lemma_nested_deeper(s[i], (n - 1) as nat, (m - 1) as nat);
            }
        },
        JsonView::Obj(map) => {
            assert forall|k: Seq<char>| #[trigger] map.dom().contains(k) implies map[k].nested(
                (m - 1) as nat,
            ) by {
                lemma_nested_deeper(map[k], (n - 1) as nat, (m - 1) as nat);
            }
        },
        _ => {},
    }
}

/// A member is found under its own key, whatever else an object holds, and
/// nothing is found under a key that it does not have or in another value.
pub proof fn law_members_are_found_by_their_keys(
    m: Map<Seq<char>, JsonView>,
    key: Seq<char>,
    value: JsonView,
    other: Seq<char>,
    j: JsonView,
)
    ensures
        JsonView::Obj(m.insert(key, value)).get(key) == Some(value),
        other != key ==> JsonView::Obj(m.insert(key, value)).get(other) == JsonView::Obj(m).get(
            other,
        ),
        JsonView::Obj(m.remove(key)).get(key) is None,
        !(j is Obj) ==> j.get(key) is None,
{
}

/// A text is read from a string only, a truth value from a boolean only.
pub proof fn law_values_are_read_by_their_kind(s: Seq<char>, b: bool, j: JsonView)
    ensures
        JsonView::Str(s).text() == Some(s),
        JsonView::Bool(b).truth() == Some(b),
        !(j is Str) ==> j.text() is None,
        !(j is Bool) ==> j.truth() is None,
{
}

} // verus!
