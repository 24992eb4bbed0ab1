use vstd::prelude::*;

use crate::value::Json;

verus! {

/// The document text could not be decoded into a value tree.
#[derive(Debug, Clone, Copy, PartialEq, Eq)]
pub struct DecodeError;

/// Declares serde_json::Value, the decoder's tree type, so that the
/// wrappers below can pass it through; it stays opaque to the proofs.
#[verifier::external_type_specification]
#[verifier::external_body]
pub struct ExValue(serde_json::Value);

/// The value tree that `s`, read as document text, denotes, or nothing
/// when `s` is not well-formed. The decoder is deterministic, so this is a
/// function of the text alone.
pub uninterp spec fn json_parse(s: Seq<char>) -> Option<Json>;

/// The tree of plain values that a decoded `serde_json::Value` carries.
pub uninterp spec fn value_model(v: serde_json::Value) -> Json;

/// Relies on serde_json::from_str: it returns `Ok` exactly on well-formed
/// JSON text, deterministically, so the parsed tree is a function of the
/// text alone.
#[verifier::external_body]
fn decode_raw(s: &str) -> (r: Result<serde_json::Value, DecodeError>)
    ensures
        match r {
            Ok(v) => json_parse(s@) == Some(value_model(v)),
            Err(_) => json_parse(s@) is None,
        },
{
    match serde_json::from_str::<serde_json::Value>(s) {
        Ok(v) => Ok(v),
        Err(_) => Err(DecodeError),
    }
}

/// Relies on the variants of serde_json::Value: the tree is rebuilt one
/// node for one node, entries in their stored order, each number as the
/// text serde_json prints for it.
#[verifier::external_body]
fn from_value(v: &serde_json::Value) -> (r: Json)
    ensures
        r == value_model(*v),
{
    match v {
        serde_json::Value::Null => Json::Null,
        serde_json::Value::Bool(b) => Json::Bool(*b),
        serde_json::Value::Number(n) => Json::Num(n.to_string().chars().collect()),
        serde_json::Value::String(s) => Json::Str(s.chars().collect()),
        serde_json::Value::Array(a) => Json::Arr(a.iter().map(from_value).collect()),
        serde_json::Value::Object(o) => Json::Obj(
            o.iter().map(|(k, w)| (k.chars().collect(), from_value(w))).collect(),
        ),
    }
}

/// Decodes document text into the library's value tree: `Ok` exactly when
/// the text is well-formed.
pub fn decode_document(s: &str) -> (r: Result<Json, DecodeError>)
    ensures
        match r {
            Ok(doc) => json_parse(s@) == Some(doc),
            Err(_) => json_parse(s@) is None,
        },
{
    match decode_raw(s) {
        Ok(v) => Ok(from_value(&v)),
        Err(e) => Err(e),
    }
}

/// Relies on String::push: it appends the one character.
#[verifier::external_body]
fn push_char(s: &mut String, c: char)
    ensures
        final(s)@ == old(s)@ + seq![c],
{
    s.push(c);
}

/// The characters of `v`, gathered into one string.
pub fn chars_to_string(v: &Vec<char>) -> (r: String)
    ensures
        r@ == v@,
{
    let mut s = String::new();
    let mut i: usize = 0;
    while i < v.len()
        invariant
            i <= v@.len(),
            s@ == v@.subrange(0, i as int),
        decreases v@.len() - i,
    {
        push_char(&mut s, v[i]);
        proof {
            assert(v@.subrange(0, i + 1 as int) =~= v@.subrange(0, i as int) + seq![v@[i as int]]);
        }
        i = i + 1;
    }
    proof {
        assert(v@.subrange(0, v@.len() as int) =~= v@);
    }
    s
}

} // verus!
