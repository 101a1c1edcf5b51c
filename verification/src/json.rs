//! The two calls into `serde_json`: a string to its JSON text, and back.
//!
//! Of a string of plain characters (printable ASCII other than the quote
//! and the backslash) the JSON text is the string between two quotes, and
//! that is stated here.  Beyond those the engine never looks inside the
//! JSON text of a string: it only needs both directions to be functions of
//! their argument, which the two names below express.

use vstd::prelude::*;

verus! {

/// The error of `serde_json`, an opaque value that is never looked into.
#[verifier::external_type_specification]
#[verifier::external_body]
pub struct ExJsonError(serde_json::Error);

/// Whether a character stands for itself in a JSON string: printable ASCII
/// other than the quote and the backslash.
pub open spec fn is_plain(c: char) -> bool {
    ' ' <= c <= '~' && c != '"' && c != '\\'
}

/// Whether every character of the string stands for itself in a JSON string.
pub open spec fn all_plain(s: Seq<char>) -> bool {
    forall|i: int| 0 <= i < s.len() ==> is_plain(#[trigger] s[i])
}

/// A string of plain characters between two quotes, as bytes.
pub open spec fn quoted(s: Seq<char>) -> Seq<u8> {
    seq![0x22u8] + Seq::new(s.len(), |i: int| s[i] as u8) + seq![0x22u8]
}

/// Whether the bytes are plain characters between two quotes.
pub open spec fn is_quoted(bytes: Seq<u8>) -> bool {
    &&& bytes.len() >= 2
    &&& bytes[0] == 0x22
    &&& bytes.last() == 0x22
    &&& forall|i: int|
        1 <= i < bytes.len() - 1 ==> 0x20 <= (#[trigger] bytes[i]) <= 0x7e && bytes[i] != 0x22
            && bytes[i] != 0x5c
}

/// The characters between the two quotes.
pub open spec fn unquoted(bytes: Seq<u8>) -> Seq<char> {
    Seq::new((bytes.len() - 2) as nat, |i: int| bytes[i + 1] as char)
}

/// What `serde_json::to_vec` gives for a string that has other characters
/// than plain ones: the bytes of its JSON text, or the description of the
/// error that it reports.
pub uninterp spec fn json_escaped(s: Seq<char>) -> Result<Seq<u8>, Seq<char>>;

/// What `serde_json::from_slice` reads as a `String` from bytes that are
/// not plain characters between two quotes, or `None` where it reports an
/// error.
pub uninterp spec fn json_unescaped(bytes: Seq<u8>) -> Option<Seq<char>>;

/// What `serde_json::to_vec` gives for a string: the bytes of its JSON text,
/// or the description of the error that it reports.
pub open spec fn json_text(s: Seq<char>) -> Result<Seq<u8>, Seq<char>> {
    if all_plain(s) {
        Ok(quoted(s))
    } else {
        json_escaped(s)
    }
}

/// The string that `serde_json::from_slice` reads from bytes that hold one
/// JSON string, or `None` where it reports an error.
pub open spec fn json_string(bytes: Seq<u8>) -> Option<Seq<char>> {
    if is_quoted(bytes) {
        Some(unquoted(bytes))
    } else {
        json_unescaped(bytes)
    }
}

/// Calls `serde_json::to_vec` on a string, and turns an error into its
/// description, as `Display` gives it.  The contract claims that a string
/// of plain characters comes back between two quotes, byte for character;
/// and of any other string only that the outcome is the one that
/// `json_escaped` names: the same string gives the same bytes, or the same
/// description of an error, every time.
#[verifier::external_body]
pub(crate) fn string_to_json(s: &str) -> (r: Result<Vec<u8>, String>)
    ensures
        match r {
            Ok(bytes) => if all_plain(s@) {
                bytes@ == quoted(s@)
            } else {
                json_escaped(s@) == Ok::<Seq<u8>, Seq<char>>(bytes@)
            },
            Err(text) => !all_plain(s@) && json_escaped(s@) == Err::<Seq<u8>, Seq<char>>(text@),
        },
{
    match serde_json::to_vec(s) {
        Ok(bytes) => Ok(bytes),
        Err(e) => Err(format!("{}", e)),
    }
}

/// Calls `serde_json::from_slice` to read a `String`.  The contract claims
/// that plain characters between two quotes are read as those characters;
/// and of any other bytes only that the outcome is the one that
/// `json_unescaped` names: the same bytes give the same string, or fail,
/// every time.
#[verifier::external_body]
pub(crate) fn string_from_json(bytes: &[u8]) -> (r: Result<String, serde_json::Error>)
    ensures
        match r {
            Ok(s) => if is_quoted(bytes@) {
                s@ == unquoted(bytes@)
            } else {
                json_unescaped(bytes@) == Some(s@)
            },
            Err(_) => !is_quoted(bytes@) && json_unescaped(bytes@) is None,
        },
{
    serde_json::from_slice::<String>(bytes)
}

} // verus!
