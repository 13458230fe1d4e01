//! A JSON document as the rest of the library reads it.
//!
//! Numbers, arrays and objects carry the text that `serde_json` prints for
//! them, so that code which shows a value as text needs no printer here.
//! Text is parsed by `serde_json` (see `parse_json`).

use vstd::prelude::*;

use crate::text::{chars_of, eq_str};

verus! {

broadcast use vstd::string::group_string_axioms;

/// A JSON value. Object members come in the order `serde_json` lists them
/// (sorted by name, as serde_json is built here); a name repeated in the
/// text is kept once, with its last value.
#[derive(Debug)]
pub enum JsonValue {
    Null,
    Bool(bool),
    /// The number as printed, and its value when it is a `u64`.
    Number(String, Option<u64>),
    Str(String),
    /// The items, and the array as printed.
    Array(Vec<JsonValue>, String),
    /// The members, and the object as printed.
    Object(Vec<(String, JsonValue)>, String),
}

/// The members of an object.
pub type Members = Seq<(String, JsonValue)>;

/// Index of the first member named `k`, or -1.
pub open spec fn member_index(m: Members, k: Seq<char>) -> int
    decreases m.len(),
{
    if m.len() == 0 {
        -1
    } else if m[0].0@ == k {
        0
    } else {
        let r = member_index(m.drop_first(), k);
        if r < 0 {
            -1
        } else {
            r + 1
        }
    }
}

pub proof fn lemma_member_index(m: Members, k: Seq<char>)
    ensures
        -1 <= member_index(m, k) < m.len(),
        member_index(m, k) >= 0 ==> m[member_index(m, k)].0@ == k,
        member_index(m, k) == -1 ==> forall|i: int| 0 <= i < m.len() ==> m[i].0@ != k,
        forall|i: int| 0 <= i < member_index(m, k) ==> m[i].0@ != k,
    decreases m.len(),
{
    if m.len() > 0 && m[0].0@ != k {
        lemma_member_index(m.drop_first(), k);
        assert forall|i: int| 1 <= i < m.len() implies m[i] == m.drop_first()[i - 1] by {}
    }
}

/// The member named `k`.
pub open spec fn member(m: Members, k: Seq<char>) -> Option<JsonValue> {
    let i = member_index(m, k);
    if i >= 0 {
        Some(m[i].1)
    } else {
        None
    }
}

/// The member named `a`, else the one named `b` (`get(a).or_else(get(b))`).
pub open spec fn member2(m: Members, a: Seq<char>, b: Seq<char>) -> Option<JsonValue> {
    match member(m, a) {
        Some(v) => Some(v),
        None => member(m, b),
    }
}

/// Index of the first member named `k`.
pub fn find_member(m: &Vec<(String, JsonValue)>, k: &str) -> (r: Option<usize>)
    ensures
        match r {
            Some(i) => member_index(m@, k@) == i as int,
            None => member_index(m@, k@) == -1,
        },
        r is Some ==> r.unwrap() < m@.len(),
{
    let mut i: usize = 0;
    while i < m.len()
        invariant
            i <= m@.len(),
            forall|j: int| 0 <= j < i ==> m@[j].0@ != k@,
        decreases m.len() - i,
    {
        if eq_str(chars_of(m[i].0.as_str()).as_slice(), k) {
            proof {
                lemma_member_index(m@, k@);
                let f = member_index(m@, k@);
                assert(f == i as int) by {
                    if f > i as int {
                        assert(m@[i as int].0@ == k@);
                    }
                }
            }
            return Some(i);
        }
        i = i + 1;
    }
    proof {
        lemma_member_index(m@, k@);
    }
    None
}

/// The member named `k`.
pub fn get_member<'a>(m: &'a Vec<(String, JsonValue)>, k: &str) -> (r: Option<&'a JsonValue>)
    ensures
        match r {
            Some(v) => member(m@, k@) == Some(*v),
            None => member(m@, k@) is None,
        },
{
    match find_member(m, k) {
        Some(i) => Some(&m[i].1),
        None => None,
    }
}

/// The member named `a`, else the one named `b`.
pub fn get_member2<'a>(m: &'a Vec<(String, JsonValue)>, a: &str, b: &str) -> (r: Option<&'a JsonValue>)
    ensures
        match r {
            Some(v) => member2(m@, a@, b@) == Some(*v),
            None => member2(m@, a@, b@) is None,
        },
{
    match get_member(m, a) {
        Some(v) => Some(v),
        None => get_member(m, b),
    }
}

/// A value shown as text: strings as they are, `null` as nothing, any
/// other value as printed.
pub open spec fn json_text(v: JsonValue) -> Seq<char> {
    match v {
        JsonValue::Null => Seq::empty(),
        JsonValue::Bool(b) => if b {
            "true"@
        } else {
            "false"@
        },
        JsonValue::Number(t, _) => t@,
        JsonValue::Str(s) => s@,
        JsonValue::Array(_, t) => t@,
        JsonValue::Object(_, t) => t@,
    }
}

/// A value shown as text.
pub fn json_string(value: &JsonValue) -> (r: String)
    ensures
        r@ == json_text(*value),
{
    match value {
        JsonValue::Null => String::new(),
        JsonValue::Bool(b) => if *b {
            "true".to_string()
        } else {
            "false".to_string()
        },
        JsonValue::Number(t, _) => t.clone(),
        JsonValue::Str(s) => s.clone(),
        JsonValue::Array(_, t) => t.clone(),
        JsonValue::Object(_, t) => t.clone(),
    }
}

/// A value as a `u64`, when it is one (`Value::as_u64`).
pub open spec fn json_u64(v: JsonValue) -> Option<u64> {
    match v {
        JsonValue::Number(_, n) => n,
        _ => None,
    }
}

/// `serde_json::Value`, the parsed document, carried through opaque.
#[verifier::external_type_specification]
#[verifier::external_body]
pub struct ExJsonDoc(serde_json::Value);

/// What `serde_json::from_str::<serde_json::Value>` makes of a text, as a
/// `JsonValue` (`None` when the text is not JSON). The JSON grammar that
/// decides it is not written out here: it is a function of the text alone.
pub uninterp spec fn json_of(text: Seq<char>) -> Option<JsonValue>;

/// A `serde_json::Value` turned into a `JsonValue`, variant by variant;
/// numbers, arrays and objects keep the text `serde_json` prints for them.
#[verifier::external_body]
fn value_to_json(v: &serde_json::Value) -> JsonValue {
    match v {
        serde_json::Value::Null => JsonValue::Null,
        serde_json::Value::Bool(b) => JsonValue::Bool(*b),
        serde_json::Value::Number(n) => JsonValue::Number(n.to_string(), n.as_u64()),
        serde_json::Value::String(t) => JsonValue::Str(t.clone()),
        serde_json::Value::Array(items) => JsonValue::Array(items.iter().map(value_to_json).collect(), v.to_string()),
        serde_json::Value::Object(map) => JsonValue::Object(map.iter().map(|(k, x)| (k.clone(), value_to_json(x))).collect(), v.to_string()),
    }
}

/// `text` parsed as JSON by `serde_json::from_str::<serde_json::Value>`;
/// `None` when serde_json refuses it. The contract claims only that the
/// result depends on the text alone (`json_of`).
#[verifier::external_body]
pub fn parse_json(text: &str) -> (r: Option<JsonValue>)
    ensures
        r == json_of(text@),
{
    match serde_json::from_str::<serde_json::Value>(text) {
        Ok(v) => Some(value_to_json(&v)),
        Err(_) => None,
    }
}

} // verus!
