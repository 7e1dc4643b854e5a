//! JSON documents as the library reads them: a plain tree of values that
//! serde_json parses from text, the member lookup that readers use, and
//! JSON string literals as serde_json writes them.
use vstd::prelude::*;
use crate::text::str_equal;

verus! {

/// `serde_json::Value`, carried only inside the parsing wrapper.
#[verifier::external_type_specification]
#[verifier::external_body]
pub struct ExJsonValue(serde_json::Value);

/// One JSON value. A number is kept as the `i64` it holds, if it holds one
/// (`None` for fractions and out-of-range numbers).
#[derive(Debug)]
pub enum Json {
    Null,
    Bool(bool),
    Number(Option<i64>),
    Str(String),
    Array(Vec<Json>),
    /// Members in key order, each key once.
    Object(Vec<(String, Json)>),
}

/// What `serde_json::from_str::<serde_json::Value>` gives for a text, as a
/// `Json` tree, or the text of the error.
pub uninterp spec fn json_parse(text: Seq<char>) -> Result<Json, Seq<char>>;

/// Trusted: calls `serde_json::from_str` for a `serde_json::Value` and
/// converts it node for node (`json_of_value`); the tree, or the error's
/// text, is named `json_parse`.
#[verifier::external_body]
pub(crate) fn parse_json(text: &str) -> (r: Result<Json, String>)
    ensures
        match r {
            Ok(j) => json_parse(text@) == Ok::<Json, Seq<char>>(j),
            Err(m) => json_parse(text@) == Err::<Json, Seq<char>>(m@),
        },
{
    serde_json::from_str::<serde_json::Value>(text).map(json_of_value).map_err(|e| e.to_string())
}

/// Trusted: the node-for-node conversion step of `parse_json`, one arm per
/// variant of `serde_json::Value` (a number keeps its `as_i64`).
#[verifier::external_body]
fn json_of_value(v: serde_json::Value) -> Json {
    match v {
        serde_json::Value::Null => Json::Null,
        serde_json::Value::Bool(b) => Json::Bool(b),
        serde_json::Value::Number(n) => Json::Number(n.as_i64()),
        serde_json::Value::String(s) => Json::Str(s),
        serde_json::Value::Array(a) => Json::Array(a.into_iter().map(json_of_value).collect()),
        serde_json::Value::Object(m) => Json::Object(m.into_iter().map(|(k, x)| (k, json_of_value(x))).collect()),
    }
}

/// The value of the first member named `key`.
pub open spec fn lookup(fields: Seq<(String, Json)>, key: Seq<char>) -> Option<Json>
    decreases fields.len(),
{
    if fields.len() == 0 {
        None
    } else if fields[0].0@ == key {
        Some(fields[0].1)
    } else {
        lookup(fields.drop_first(), key)
    }
}

/// The member `key` of an object (`None` for any other value).
pub open spec fn member(j: Json, key: Seq<char>) -> Option<Json> {
    match j {
        Json::Object(fs) => lookup(fs@, key),
        _ => None,
    }
}

/// The member `key` of an object, as `serde_json::Value::get` reads it.
pub fn get<'a>(j: &'a Json, key: &str) -> (r: Option<&'a Json>)
    ensures
        match r {
            Some(v) => member(*j, key@) == Some(*v),
            None => member(*j, key@) is None,
        },
{
    match j {
        Json::Object(fs) => {
            let mut i: usize = 0;
            proof {
                assert(fs@.skip(0) =~= fs@);
            }
            while i < fs.len()
                invariant
                    i <= fs.len(),
                    member(*j, key@) == lookup(fs@, key@),
                    lookup(fs@, key@) == lookup(fs@.skip(i as int), key@),
                decreases fs.len() - i,
            {
                proof {
                    assert(fs@.skip(i as int).drop_first() =~= fs@.skip(i + 1));
                    assert(fs@.skip(i as int)[0] == fs@[i as int]);
                }
                if str_equal(fs[i].0.as_str(), key) {
                    proof {
                        assert(lookup(fs@.skip(i as int), key@) == Some(fs@[i as int].1));
                        assert(member(*j, key@) == Some(fs@[i as int].1));
                    }
                    let v = &fs[i].1;
                    assert(*v == fs@[i as int].1);
                    return Some(v);
                }
                i = i + 1;
            }
            None
        },
        _ => None,
    }
}

/// The string a value holds, if it is one (`as_str`).
pub open spec fn as_text(v: Option<Json>) -> Option<Seq<char>> {
    match v {
        Some(Json::Str(s)) => Some(s@),
        _ => None,
    }
}

/// The string member `key`, or the empty string (`get(..).as_str().unwrap_or_default()`).
pub open spec fn text_at(j: Json, key: Seq<char>) -> Seq<char> {
    match as_text(member(j, key)) {
        Some(s) => s,
        None => Seq::empty(),
    }
}

/// The string member `key`, or the empty string.
pub fn text_member(j: &Json, key: &str) -> (r: String)
    ensures
        r@ == text_at(*j, key@),
{
    match get(j, key) {
        Some(Json::Str(s)) => s.clone(),
        _ => String::new(),
    }
}

/// The lower-case hexadecimal digit of `n < 16`.
pub open spec fn hex_digit(n: int) -> char {
    if n < 10 { (48 + n) as char } else { (87 + n) as char }
}

/// How serde_json writes one character inside a string literal: quote,
/// backslash and the short control escapes, `\u00xx` for the other
/// control characters, every other character as is.
pub open spec fn escaped(c: char) -> Seq<char> {
    if c == '"' {
        seq!['\\', '"']
    } else if c == '\\' {
        seq!['\\', '\\']
    } else if c == '\u{8}' {
        seq!['\\', 'b']
    } else if c == '\t' {
        seq!['\\', 't']
    } else if c == '\n' {
        seq!['\\', 'n']
    } else if c == '\u{c}' {
        seq!['\\', 'f']
    } else if c == '\r' {
        seq!['\\', 'r']
    } else if (c as int) < 32 {
        seq!['\\', 'u', '0', '0', hex_digit(c as int / 16), hex_digit(c as int % 16)]
    } else {
        seq![c]
    }
}

/// The escaped characters of a string.
pub open spec fn escaped_all(s: Seq<char>) -> Seq<char>
    decreases s.len(),
{
    if s.len() == 0 { Seq::empty() } else { escaped_all(s.drop_last()) + escaped(s.last()) }
}

/// A string as a JSON string literal, as serde_json writes it.
pub open spec fn json_quote(s: Seq<char>) -> Seq<char> {
    seq!['"'] + escaped_all(s) + seq!['"']
}

/// Trusted: calls `serde_json::to_string` on a string, which cannot fail
/// for a string and writes `json_quote` of it.
#[verifier::external_body]
pub(crate) fn json_string(s: &str) -> (r: String)
    ensures
        r@ == json_quote(s@),
{
    serde_json::to_string(s).unwrap_or_default()
}

} // verus!
