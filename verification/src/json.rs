//! A JSON document as plain values: what the routes read from the JSON they
//! are sent. Objects keep their members in order; a floating-point number is
//! held by the bits of its `f64`.
use vstd::prelude::*;

verus! {

/// A JSON number, split as JSON libraries keep it: a non-negative integer, a
/// negative integer, or a floating-point number given by the bits of its `f64`.
#[derive(Debug, Clone, Copy, PartialEq, Eq, Structural)]
pub enum JsonNumber {
    PosInt(u64),
    NegInt(i64),
    Float(u64),
}

/// A JSON value.
#[derive(Debug)]
pub enum Json {
    Null,
    Bool(bool),
    Number(JsonNumber),
    Str(String),
    Array(Vec<Json>),
    Object(Vec<(String, Json)>),
}

/// The member `key` of an object's `members`; when a key occurs twice the later
/// member counts, as when the members are inserted into a map in order.
pub open spec fn member(members: Seq<(String, Json)>, key: Seq<char>) -> Option<Json>
    decreases members.len(),
{
    if members.len() == 0 {
        None
    } else if members.last().0@ == key {
        Some(members.last().1)
    } else {
        member(members.drop_last(), key)
    }
}

/// The member `key` of `v` when `v` is an object that has one.
pub open spec fn json_get(v: Json, key: Seq<char>) -> Option<Json> {
    match v {
        Json::Object(members) => member(members@, key),
        _ => None,
    }
}

/// The value of `v` as a `u64`, when it is a non-negative integer.
pub open spec fn json_as_u64(v: Json) -> Option<u64> {
    match v {
        Json::Number(JsonNumber::PosInt(n)) => Some(n),
        _ => None,
    }
}

/// What a member list gives back: the member last written under `key`.
/// Appending a member under `key` makes it the one found; appending one under
/// another key leaves the lookup of `key` as it was; the empty list has no
/// members.
pub proof fn law_member_reads_last_write(
    members: Seq<(String, Json)>,
    name: String,
    value: Json,
    key: Seq<char>,
)
    ensures
        member(members.push((name, value)), name@) == Some(value),
        key != name@ ==> member(members.push((name, value)), key) == member(members, key),
        member(Seq::<(String, Json)>::empty(), key) is None,
{
    assert(members.push((name, value)).drop_last() =~= members);
}

impl Json {
    /// The member `key` of this value when it is an object that has one.
    pub fn get(&self, key: &String) -> (r: Option<&Json>)
        ensures
            match json_get(*self, key@) {
                None => r is None,
                Some(m) => r == Some(&m),
            },
    {
        match self {
            Json::Object(members) => {
                let mut i = members.len();
                assert(members@.subrange(0, i as int) =~= members@);
                while i > 0
                    invariant
                        i <= members@.len(),
                        json_get(*self, key@) == member(members@, key@),
                        member(members@, key@) == member(members@.subrange(0, i as int), key@),
                    decreases i,
                {
                    let ghost prefix = members@.subrange(0, i as int);
                    assert(prefix.drop_last() =~= members@.subrange(0, i - 1));
                    assert(prefix.last() == members@[i - 1]);
                    if members[i - 1].0 == *key {
                        assert(member(prefix, key@) == Some(members@[i - 1].1));
                        return Some(&members[i - 1].1);
                    }
                    i = i - 1;
                }
                None
            },
            _ => None,
        }
    }

    /// The value as a `u64`, when it is a non-negative integer.
    pub fn as_u64(&self) -> (r: Option<u64>)
        ensures
            r == json_as_u64(*self),
    {
        match self {
            Json::Number(JsonNumber::PosInt(n)) => Some(*n),
            _ => None,
        }
    }
}

} // verus!
