//! The record decoder: one newline-delimited JSON object per record, of
//! which only the `author` and `body` string fields are used. The JSON
//! grammar itself is an outside collaborator; what this module adds is the
//! mapping from a line's bytes to the record the pipeline aggregates.

use vstd::prelude::*;

use crate::text::text_item::{chars_of, chars_utf8, utf8_of};

verus! {

/// One decoded record: who wrote which text.
pub struct Comment {
    pub author: String,
    pub body: String,
}

/// What the JSON parser yields for a line and two field names: the two
/// fields' string values, if the line is one object that carries both as
/// strings.
pub uninterp spec fn json_pair_of(line: Seq<u8>, f1: Seq<char>, f2: Seq<char>) -> Option<
    (Seq<char>, Seq<char>),
>;

/// Relies on simd_json::to_owned_value: parses the line's bytes as one JSON
/// value; the result depends on the bytes and the field names alone.
#[verifier::external_body]
fn json_string_pair(line: &[u8], f1: &str, f2: &str) -> (r: Option<(String, String)>)
    ensures
        match r {
            Some(p) => json_pair_of(line@, f1@, f2@) == Some((p.0@, p.1@)),
            None => json_pair_of(line@, f1@, f2@) is None,
        },
{
    let mut buf = line.to_vec();
    match simd_json::to_owned_value(&mut buf) {
        Ok(simd_json::OwnedValue::Object(m)) => match (m.get(f1), m.get(f2)) {
            (Some(simd_json::OwnedValue::String(a)), Some(simd_json::OwnedValue::String(b))) => {
                Some((a.clone(), b.clone()))
            },
            _ => None,
        },
        _ => None,
    }
}

/// The record a line's bytes stand for: the author's UTF-8 bytes and the
/// body's characters, or nothing if the line is not a record. An empty line
/// is no record.
pub open spec fn record_of(line: Seq<u8>) -> Option<(Seq<u8>, Seq<char>)> {
    match json_pair_of(line, "author"@, "body"@) {
        Some(p) => Some((utf8_of(p.0), p.1)),
        None => None,
    }
}

/// Decodes one line into a record, or reports a soft decode failure.
pub fn decode_record(line: &[u8]) -> (r: Option<Comment>)
    ensures
        match r {
            Some(c) => record_of(line@) == Some((utf8_of(c.author@), c.body@)),
            None => record_of(line@) is None,
        },
{
    match json_string_pair(line, "author", "body") {
        Some((a, b)) => Some(Comment { author: a, body: b }),
        None => None,
    }
}

/// The author's key bytes: the UTF-8 encoding of the author string.
pub fn author_key(c: &Comment) -> (r: Vec<u8>)
    ensures
        r@ == utf8_of(c.author@),
{
    let chars = chars_of(c.author.as_str());
    chars_utf8(&chars)
}

} // verus!
