//! JSON documents as a tree of the library's own, read by `serde_json`,
//! and the reading of integers and object members from such a tree.
use vstd::prelude::*;

use crate::text::{all_digits, chars_of, digits_value, lemma_digits_value_prefix, str_eq};

verus! {

/// A JSON value; numbers are kept as the text `serde_json` prints them
/// with, object members in the order `serde_json` lists them.
#[derive(Debug)]
pub enum JsonTree {
    Null,
    Bool(bool),
    Number(String),
    Str(String),
    Array(Vec<JsonTree>),
    Object(Vec<(String, JsonTree)>),
}

#[verifier::external_type_specification]
#[verifier::external_body]
pub struct ExJsonValue(serde_json::Value);

/// The document that `serde_json` reads from `text`, or `None` where it
/// finds no JSON there.
pub uninterp spec fn json_of(text: Seq<char>) -> Option<JsonTree>;

/// Reads `text` with `serde_json::from_str` into a `serde_json::Value`
/// and converts it, one value for one, into a `JsonTree` (`None` where
/// `serde_json` reports an error). The contract only names the result: it
/// is the same for the same text.
#[verifier::external_body]
pub fn parse_json(text: &str) -> (r: Option<JsonTree>)
    ensures
        r == json_of(text@),
{
    match serde_json::from_str::<serde_json::Value>(text) {
        Ok(v) => Some(tree_of(v)),
        Err(_) => None,
    }
}

/// Converts a `serde_json::Value` into a `JsonTree`, variant by variant:
/// a number by its `Display` text, an array's items and an object's
/// members in the order the value lists them.
#[verifier::external_body]
fn tree_of(v: serde_json::Value) -> JsonTree {
    match v {
        serde_json::Value::Null => JsonTree::Null,
        serde_json::Value::Bool(b) => JsonTree::Bool(b),
        serde_json::Value::Number(n) => JsonTree::Number(n.to_string()),
        serde_json::Value::String(s) => JsonTree::Str(s),
        serde_json::Value::Array(a) => JsonTree::Array(a.into_iter().map(tree_of).collect()),
        serde_json::Value::Object(o) => JsonTree::Object(
            o.into_iter().map(|(k, x)| (k, tree_of(x))).collect(),
        ),
    }
}

/// The first member named `key` among `entries`.
pub open spec fn field(entries: Seq<(String, JsonTree)>, key: Seq<char>) -> Option<JsonTree>
    decreases entries.len(),
{
    if entries.len() == 0 {
        None
    } else if entries[0].0@ == key {
        Some(entries[0].1)
    } else {
        field(entries.drop_first(), key)
    }
}

/// The member `key` of `v`, where `v` is an object that has one.
pub open spec fn member(v: JsonTree, key: Seq<char>) -> Option<JsonTree> {
    match v {
        JsonTree::Object(es) => field(es@, key),
        _ => None,
    }
}

/// The `i64` that a number's text denotes: an optional minus sign, then
/// one or more decimal digits, within the range of `i64`.
pub open spec fn int_of_text(t: Seq<char>) -> Option<i64> {
    let neg = t.len() > 0 && t[0] == '-';
    let d = if neg {
        t.drop_first()
    } else {
        t
    };
    if d.len() > 0 && all_digits(d) {
        let v = if neg {
            -digits_value(d)
        } else {
            digits_value(d)
        };
        if i64::MIN <= v <= i64::MAX {
            Some(v as i64)
        } else {
            None
        }
    } else {
        None
    }
}

/// An optional borrowed tree as an optional tree.
pub open spec fn deref_opt(v: Option<&JsonTree>) -> Option<JsonTree> {
    match v {
        Some(x) => Some(*x),
        None => None,
    }
}

/// The integer that `v` is, where it is a number written as an `i64`.
pub open spec fn int_of(v: Option<JsonTree>) -> Option<i64> {
    match v {
        Some(JsonTree::Number(t)) => int_of_text(t@),
        _ => None,
    }
}

/// Reads the `i64` that a number's text denotes.
pub fn read_int(s: &str) -> (r: Option<i64>)
    ensures
        r == int_of_text(s@),
{
    let cs = chars_of(s);
    let n = cs.len();
    if n == 0 {
        return None;
    }
    let neg = cs[0] == '-';
    assert(neg == (s@.len() > 0 && s@[0] == '-'));
    let start: usize = if neg { 1 } else { 0 };
    let ghost d = if neg { s@.drop_first() } else { s@ };
    assert(d =~= s@.subrange(start as int, n as int));
    if start == n {
        return None;
    }
    let mut acc: u128 = 0;
    let mut i: usize = start;
    while i < n
        invariant
            cs@ == s@,
            n == s@.len(),
            start <= i <= n,
            d == s@.subrange(start as int, n as int),
            d == (if s@.len() > 0 && s@[0] == '-' {
                s@.drop_first()
            } else {
                s@
            }),
            all_digits(d.take(i - start)),
            acc == digits_value(d.take(i - start)),
            0 <= acc <= 9223372036854775808,
        decreases n - i,
    {
        let c = cs[i];
        let u = c as u32;
        if u < 48 || u > 57 {
            assert(d[i - start] == c);
            assert(!crate::text::is_digit(c));
            assert(!all_digits(d));
            return None;
        }
        let ghost before = d.take(i - start);
        proof {
            assert(d.take(i - start + 1).drop_last() =~= before);
            assert(d.take(i - start + 1).last() == c);
            assert(all_digits(d.take(i - start + 1))) by {
                assert forall|k: int| 0 <= k < i - start + 1 implies crate::text::is_digit(
                    #[trigger] d.take(i - start + 1)[k],
                ) by {
                    if k < i - start {
                        assert(d.take(i - start + 1)[k] == before[k]);
                    }
                }
            }
        }
        acc = acc * 10 + (u - 48) as u128;
        i += 1;
        assert(acc == digits_value(d.take(i - start)));
        if acc > 9223372036854775808 {
            proof {
                if all_digits(d) {
                    lemma_digits_value_prefix(d, i - start);
                    assert(digits_value(d) > 9223372036854775808);
                }
            }
            return None;
        }
    }
    assert(d.take(n - start) =~= d);
    if neg {
        if acc == 9223372036854775808 {
            Some(i64::MIN)
        } else {
            Some(0 - (acc as i64))
        }
    } else if acc > 9223372036854775807 {
        None
    } else {
        Some(acc as i64)
    }
}

/// The member `key` of `v`, where `v` is an object that has one.
pub fn get_member<'a>(v: &'a JsonTree, key: &str) -> (r: Option<&'a JsonTree>)
    ensures
        match r {
            Some(x) => member(*v, key@) == Some(*x),
            None => member(*v, key@) is None,
        },
{
    match v {
        JsonTree::Object(es) => {
            let mut i: usize = 0;
            assert(es@.skip(0) =~= es@);
            while i < es.len()
                invariant
                    i <= es@.len(),
                    member(*v, key@) == field(es@, key@),
                    field(es@, key@) == field(es@.skip(i as int), key@),
                decreases es@.len() - i,
            {
                proof {
                    assert(es@.skip(i as int).drop_first() =~= es@.skip(i + 1));
                    assert(es@.skip(i as int)[0] == es@[i as int]);
                }
                if str_eq(es[i].0.as_str(), key) {
                    return Some(&es[i].1);
                }
                i += 1;
            }
            None
        },
        _ => None,
    }
}

/// The integer that `v` is, where it is a number written as an `i64`.
pub fn get_int(v: Option<&JsonTree>) -> (r: Option<i64>)
    ensures
        r == int_of(deref_opt(v)),
{
    match v {
        Some(JsonTree::Number(t)) => read_int(t.as_str()),
        _ => None,
    }
}

} // verus!
verus! {

/// A member is looked up by name: the value of the first member with that
/// name; none when no member has it.
pub proof fn lemma_field(entries: Seq<(String, JsonTree)>, key: Seq<char>)
    ensures
        field(entries, key) matches Some(v) ==> exists|p: int|
            0 <= p < entries.len() && (#[trigger] entries[p]).0@ == key && entries[p].1 == v
                && forall|q: int| 0 <= q < p ==> (#[trigger] entries[q]).0@ != key,
        field(entries, key) is None ==> forall|q: int| 0 <= q < entries.len() ==> (#[trigger] entries[q]).0@ != key,
    decreases entries.len(),
{
    if entries.len() > 0 && entries[0].0@ != key {
        let rest = entries.drop_first();
        lemma_field(rest, key);
        if let Some(v) = field(rest, key) {
            let p = choose|p: int|
                0 <= p < rest.len() && (#[trigger] rest[p]).0@ == key && rest[p].1 == v
                    && forall|q: int| 0 <= q < p ==> (#[trigger] rest[q]).0@ != key;
            assert(entries[p + 1] == rest[p]);
            assert forall|q: int| 0 <= q < p + 1 implies (#[trigger] entries[q]).0@ != key by {
                if q > 0 {
                    assert(entries[q] == rest[q - 1]);
                }
            }
        } else {
            assert forall|q: int| 0 <= q < entries.len() implies (#[trigger] entries[q]).0@ != key by {
                if q > 0 {
                    assert(entries[q] == rest[q - 1]);
                }
            }
        }
    } else if entries.len() > 0 {
        assert(entries[0] == entries[0]);
    }
}

} // verus!
