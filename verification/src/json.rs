//! A decoded JSON document, handed to the library as plain values.
//!
//! The surrounding program fetches and decodes the remote documents and
//! converts them into this shape; the library's logic then reads them
//! under exact contracts. Object members keep the order in which the
//! decoder yielded them; a number keeps its numeral text.

use vstd::prelude::*;
use vstd::string::*;
use crate::decimal::{parse_decimal, spec_parse_decimal, Decimal};

verus! {

pub enum Json {
    Null,
    Bool(bool),
    Num(String),
    Str(String),
    Arr(Vec<Json>),
    Obj(Vec<(String, Json)>),
}

/// The first member with the given key, if any.
pub open spec fn spec_obj_get(entries: Seq<(String, Json)>, key: Seq<char>) -> Option<Json>
    decreases entries.len(),
{
    if entries.len() == 0 {
        None
    } else if entries[0].0@ == key {
        Some(entries[0].1)
    } else {
        spec_obj_get(entries.drop_first(), key)
    }
}

/// Member lookup: `None` on every value that is not an object, the way
/// indexing into a dynamic JSON value answers.
pub open spec fn spec_get(j: Json, key: Seq<char>) -> Option<Json> {
    match j {
        Json::Obj(es) => spec_obj_get(es@, key),
        _ => None,
    }
}

pub fn json_get<'a>(j: &'a Json, key: &String) -> (r: Option<&'a Json>)
    ensures
        match r {
            Some(v) => spec_get(*j, key@) == Some(*v),
            None => spec_get(*j, key@) is None,
        },
{
    match j {
        Json::Obj(es) => {
            let n = es.len();
            let mut i: usize = 0;
            proof {
                assert(es@.skip(0) =~= es@);
            }
            while i < n
                invariant
                    i <= n,
                    n == es@.len(),
                    *j == Json::Obj(*es),
                    spec_obj_get(es@, key@) == spec_obj_get(es@.skip(i as int), key@),
                decreases n - i,
            {
                let e = &es[i];
                proof {
                    assert(es@.skip(i as int)[0] == es@[i as int]);
                }
                if e.0 == *key {
                    proof {
                        assert(spec_obj_get(es@.skip(i as int), key@) == Some(es@[i as int].1));
                    }
                    return Some(&e.1);
                }
                proof {
                    assert(es@.skip(i as int).drop_first() =~= es@.skip(i as int + 1));
                }
                i = i + 1;
            }
            proof {
                assert(es@.skip(n as int).len() == 0);
            }
            None
        },
        _ => None,
    }
}

/// The numeric value of a rate entry: a number's numeral parsed exactly,
/// `None` on every other shape, which the caller reports as bad data.
pub open spec fn spec_rate_of(j: Json) -> Option<Decimal> {
    match j {
        Json::Num(raw) => spec_parse_decimal(raw@),
        _ => None,
    }
}

pub fn rate_of(j: &Json) -> (r: Option<Decimal>)
    ensures
        r == spec_rate_of(*j),
        r matches Some(v) ==> v.wf(),
{
    match j {
        Json::Num(raw) => parse_decimal(raw.as_str()),
        _ => None,
    }
}

} // verus!
