//! Decoding one line of input into its type label.
//!
//! A line is a JSON document; a record is an object whose `type` field is a
//! string. Extraction is done by serde_json; what it returns for a given
//! line is named by the spec function [`type_label_of`], and every contract
//! above it speaks through that name.

use vstd::prelude::*;

verus! {

use vstd::utf8::encode_utf8;

/// The label that JSON decoding extracts from a line: `Some(label)` when
/// the line is a valid JSON object carrying a string-valued `type` field,
/// `None` otherwise. The outcome depends on the line's characters alone.
pub uninterp spec fn type_label_of(line: Seq<char>) -> Option<Seq<char>>;

/// A line parses: it yields a type label.
pub open spec fn line_ok(line: Seq<char>) -> bool {
    type_label_of(line) is Some
}

/// The label of a line that parses.
pub open spec fn label_of(line: Seq<char>) -> Seq<char> {
    type_label_of(line)->0
}

/// The aggregation key of a line that parses: its label's UTF-8 encoding.
pub open spec fn key_of(line: Seq<char>) -> Seq<u8> {
    encode_utf8(label_of(line))
}

/// A line's byte length (the length of its UTF-8 encoding, which is what
/// `str::len` returns), counted without any line terminator.
pub open spec fn byte_len(line: Seq<char>) -> nat {
    encode_utf8(line).len()
}

/// Relies on `serde_json::from_str::<serde_json::Value>` to parse the line
/// and on `serde_json::Value::get` and the `Value::String` variant to read
/// its `type` field; the result is a function of the line alone, named
/// [`type_label_of`]. A non-string `type` value is rejected; extra fields
/// are ignored by the lookup.
#[verifier::external_body]
fn json_type_label(line: &str) -> (r: Option<String>)
    ensures
        match r {
            Some(lab) => type_label_of(line@) == Some(lab@),
            None => type_label_of(line@) is None,
        },
{
    let doc: serde_json::Value = match serde_json::from_str(line) {
        Ok(v) => v,
        Err(_) => return None,
    };
    match doc.get("type") {
        Some(serde_json::Value::String(s)) => Some(s.clone()),
        _ => None,
    }
}

/// Extracts the type label of one line, or reports that the line is not a
/// record: not valid JSON, or without a string-valued `type` field.
pub fn extract_type_label(line: &str) -> (r: Option<String>)
    ensures
        r is Some <==> line_ok(line@),
        r is Some ==> r->0@ == label_of(line@),
{
    json_type_label(line)
}

} // verus!
