//! JSON values as the library sees them.
//!
//! Bytes are parsed and printed outside the library; inside it a value is
//! this plain tree. Numbers keep serde_json's three shapes; a non-integer
//! number is carried as its decimal text.

use vstd::prelude::*;
use crate::text::str_eq;

verus! {

/// A JSON number: a non-negative integer, a negative integer, or any other
/// number as its decimal text.
#[derive(Debug, Clone, PartialEq, Eq)]
pub enum JsonNumber {
    PosInt(u64),
    NegInt(i64),
    Float(String),
}

/// A JSON value. An object keeps its members in order; keys are expected
/// to be unique, and lookups take the first member with a given key.
#[derive(Debug, PartialEq, Eq)]
pub enum Json {
    Null,
    Bool(bool),
    Number(JsonNumber),
    String(String),
    Array(Vec<Json>),
    Object(Vec<(String, Json)>),
}

/// The first member of `members` with key `key`.
pub open spec fn member(members: Seq<(String, Json)>, key: Seq<char>) -> Option<Json>
    decreases members.len(),
{
    if members.len() == 0 {
        None
    } else if members[0].0@ == key {
        Some(members[0].1)
    } else {
        member(members.drop_first(), key)
    }
}

/// Whether two numbers are the same: equal integers, or equal texts.
pub open spec fn same_number(x: JsonNumber, y: JsonNumber) -> bool {
    match (x, y) {
        (JsonNumber::PosInt(a), JsonNumber::PosInt(b)) => a == b,
        (JsonNumber::NegInt(a), JsonNumber::NegInt(b)) => a == b,
        (JsonNumber::Float(a), JsonNumber::Float(b)) => a@ == b@,
        _ => false,
    }
}

/// Whether two values are the same JSON: same shape, same scalars and
/// texts, and the same elements and members in the same order.
pub open spec fn same(a: Json, b: Json) -> bool
    decreases a, 1int,
{
    match a {
        Json::Null => b is Null,
        Json::Bool(x) => b == Json::Bool(x),
        Json::Number(x) => match b {
            Json::Number(y) => same_number(x, y),
            _ => false,
        },
        Json::String(x) => match b {
            Json::String(y) => x@ == y@,
            _ => false,
        },
        Json::Array(xs) => match b {
            Json::Array(ys) => {
                proof {
                    assert(decreases_to!(a => xs));
                    assert(decreases_to!(xs => xs@));
                }
                same_items(xs@, ys@)
            },
            _ => false,
        },
        Json::Object(xm) => match b {
            Json::Object(ym) => {
                proof {
                    assert(decreases_to!(a => xm));
                    assert(decreases_to!(xm => xm@));
                }
                same_members(xm@, ym@)
            },
            _ => false,
        },
    }
}

/// Element-wise [`same`], in order.
pub open spec fn same_items(xs: Seq<Json>, ys: Seq<Json>) -> bool
    decreases xs, 0int,
{
    xs.len() == ys.len() && (xs.len() == 0 || (same(xs.last(), ys.last())
        && same_items(xs.drop_last(), ys.drop_last())))
}

/// Member-wise: equal keys and [`same`] values, in order.
pub open spec fn same_members(xs: Seq<(String, Json)>, ys: Seq<(String, Json)>) -> bool
    decreases xs, 0int,
{
    xs.len() == ys.len() && (xs.len() == 0 || (xs.last().0@ == ys.last().0@
        && same(xs.last().1, ys.last().1) && same_members(xs.drop_last(), ys.drop_last())))
}

/// The value of the first member of `members` with key `key`.
pub fn lookup<'a>(members: &'a Vec<(String, Json)>, key: &str) -> (r: Option<&'a Json>)
    ensures
        match r { Some(v) => member(members@, key@) == Some(*v), None => member(members@, key@) is None },
{
    let mut i: usize = 0;
    assert(members@.skip(0) =~= members@);
    while i < members.len()
        invariant
            i <= members.len(),
            member(members@, key@) == member(members@.skip(i as int), key@),
        decreases members.len() - i,
    {
        let ghost rest = members@.skip(i as int);
        assert(rest.drop_first() =~= members@.skip(i + 1));
        assert(rest[0] == members@[i as int]);
        if str_eq(members[i].0.as_str(), key) {
            assert(member(rest, key@) == Some(members@[i as int].1));
            return Some(&members[i].1);
        }
        i += 1;
    }
    assert(members@.skip(i as int).len() == 0);
    None
}

/// A copy of a number.
fn copy_number(n: &JsonNumber) -> (r: JsonNumber)
    ensures
        same_number(*n, r),
{
    match n {
        JsonNumber::PosInt(v) => JsonNumber::PosInt(*v),
        JsonNumber::NegInt(v) => JsonNumber::NegInt(*v),
        JsonNumber::Float(t) => JsonNumber::Float(t.clone()),
    }
}

impl Json {
    /// A copy of the value, member by member.
    pub fn copy(&self) -> (r: Json)
        ensures
            same(*self, r),
        decreases self,
    {
        match self {
            Json::Null => Json::Null,
            Json::Bool(b) => Json::Bool(*b),
            Json::Number(n) => Json::Number(copy_number(n)),
            Json::String(s) => Json::String(s.clone()),
            Json::Array(items) => {
                let mut out: Vec<Json> = Vec::with_capacity(items.len());
                let mut i: usize = 0;
                while i < items.len()
                    invariant
                        i <= items.len(),
                        *self == Json::Array(*items),
                        same_items(items@.take(i as int), out@),
                    decreases items.len() - i,
                {
                    proof {
                        let ghost v = *items;
                        assert(decreases_to!(*self => (*self)->Array_0));
                        assert(decreases_to!(v => v@));
                        assert(decreases_to!(v@ => v@[i as int]));
                    }
                    let value = items[i].copy();
                    let ghost before = out@;
                    out.push(value);
                    proof {
                        let t = items@.take(i as int + 1);
                        assert(t.drop_last() =~= items@.take(i as int));
                        assert(out@.drop_last() =~= before);
                        assert(t.last() == items@[i as int]);
                    }
                    i += 1;
                }
                proof {
                    assert(items@.take(items@.len() as int) =~= items@);
                }
                Json::Array(out)
            },
            Json::Object(members) => {
                let mut out: Vec<(String, Json)> = Vec::with_capacity(members.len());
                let mut i: usize = 0;
                while i < members.len()
                    invariant
                        i <= members.len(),
                        *self == Json::Object(*members),
                        same_members(members@.take(i as int), out@),
                    decreases members.len() - i,
                {
                    proof {
                        let ghost v = *members;
                        assert(decreases_to!(*self => (*self)->Object_0));
                        assert(decreases_to!(v => v@));
                        assert(decreases_to!(v@ => v@[i as int]));
                        assert(decreases_to!(v@[i as int] => v@[i as int].1));
                    }
                    let key = members[i].0.clone();
                    let value = members[i].1.copy();
                    let ghost before = out@;
                    out.push((key, value));
                    proof {
                        let t = members@.take(i as int + 1);
                        assert(t.drop_last() =~= members@.take(i as int));
                        assert(out@.drop_last() =~= before);
                        assert(t.last() == members@[i as int]);
                    }
                    i += 1;
                }
                proof {
                    assert(members@.take(members@.len() as int) =~= members@);
                }
                Json::Object(out)
            },
        }
    }

    /// `obj[key]` for an object, nothing for any other value (serde_json `Value::get`).
    pub open spec fn field(self, key: Seq<char>) -> Option<Json> {
        match self {
            Json::Object(m) => member(m@, key),
            _ => None,
        }
    }

    /// The text of a JSON string.
    pub open spec fn text(self) -> Option<Seq<char>> {
        match self {
            Json::String(s) => Some(s@),
            _ => None,
        }
    }

    /// The value of a non-negative integer (serde_json `Value::as_u64`).
    pub open spec fn unsigned(self) -> Option<u64> {
        match self {
            Json::Number(JsonNumber::PosInt(n)) => Some(n),
            _ => None,
        }
    }

    /// The value of a boolean.
    pub open spec fn boolean(self) -> Option<bool> {
        match self {
            Json::Bool(b) => Some(b),
            _ => None,
        }
    }

    /// Whether the value is the string `s`.
    pub open spec fn is_text(self, s: Seq<char>) -> bool {
        self.text() == Some(s)
    }

    /// `obj[key]` when present: the first member of an object with that key.
    pub fn get(&self, key: &str) -> (r: Option<&Json>)
        ensures
            match r { Some(v) => self.field(key@) == Some(*v), None => self.field(key@) is None },
    {
        match self {
            Json::Object(members) => lookup(members, key),
            _ => None,
        }
    }

    /// The text of a JSON string (serde_json `Value::as_str`).
    pub fn as_str(&self) -> (r: Option<&str>)
        ensures
            match r { Some(s) => self.text() == Some(s@), None => self.text() is None },
    {
        match self {
            Json::String(s) => Some(s.as_str()),
            _ => None,
        }
    }

    /// The value of a non-negative integer (serde_json `Value::as_u64`).
    pub fn as_u64(&self) -> (r: Option<u64>)
        ensures
            r == self.unsigned(),
    {
        match self {
            Json::Number(JsonNumber::PosInt(n)) => Some(*n),
            _ => None,
        }
    }

    /// The value of a boolean (serde_json `Value::as_bool`).
    pub fn as_bool(&self) -> (r: Option<bool>)
        ensures
            r == self.boolean(),
    {
        match self {
            Json::Bool(b) => Some(*b),
            _ => None,
        }
    }

    /// Whether the value is an array.
    pub fn is_array(&self) -> (r: bool)
        ensures
            r == (self is Array),
    {
        match self {
            Json::Array(_) => true,
            _ => false,
        }
    }

    /// Whether the value is an object.
    pub fn is_object(&self) -> (r: bool)
        ensures
            r == (self is Object),
    {
        match self {
            Json::Object(_) => true,
            _ => false,
        }
    }

    /// Whether the value is a string.
    pub fn is_string(&self) -> (r: bool)
        ensures
            r == (self is String),
    {
        match self {
            Json::String(_) => true,
            _ => false,
        }
    }

    /// A JSON string holding `s`.
    pub fn from_str(s: &str) -> (r: Json)
        ensures
            r.text() == Some(s@),
    {
        Json::String(s.to_owned())
    }
}

impl Clone for Json {
    fn clone(&self) -> Self {
        self.copy()
    }
}

} // verus!
