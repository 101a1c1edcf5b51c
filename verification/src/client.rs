//! The client's side of the protocol: the requests that it sends, and what
//! it makes of the line that comes back.

use vstd::prelude::*;
use crate::codec::{token_views, Message};
use crate::error::KvsError;
use crate::record::same_text;
use crate::text::{chars_of, string_of};

verus! {

/// Whether a character is white space, as `char::is_whitespace` has it.
pub open spec fn is_space(c: char) -> bool {
    ||| '\u{9}' <= c <= '\u{d}'
    ||| c == ' '
    ||| c == '\u{85}'
    ||| c == '\u{a0}'
    ||| c == '\u{1680}'
    ||| '\u{2000}' <= c <= '\u{200a}'
    ||| c == '\u{2028}'
    ||| c == '\u{2029}'
    ||| c == '\u{202f}'
    ||| c == '\u{205f}'
    ||| c == '\u{3000}'
}

/// The number of white space characters at the start of `s`.
pub open spec fn leading(s: Seq<char>) -> int
    decreases s.len(),
{
    if s.len() > 0 && is_space(s[0]) {
        1 + leading(s.drop_first())
    } else {
        0
    }
}

/// The number of white space characters at the end of `s`.
pub open spec fn trailing(s: Seq<char>) -> int
    decreases s.len(),
{
    if s.len() > 0 && is_space(s.last()) {
        1 + trailing(s.drop_last())
    } else {
        0
    }
}

/// `s` without the white space at its start and at its end.
pub open spec fn trimmed(s: Seq<char>) -> Seq<char> {
    if leading(s) == s.len() {
        Seq::empty()
    } else {
        s.subrange(leading(s), s.len() - trailing(s))
    }
}

/// The request that sets a key.
pub open spec fn set_tokens(key: Seq<char>, value: Seq<char>) -> Seq<Seq<char>> {
    seq!["set"@, key, value]
}

/// The request that asks for the value of a key.
pub open spec fn get_tokens(key: Seq<char>) -> Seq<Seq<char>> {
    seq!["get"@, key]
}

/// The request that removes a key.
pub open spec fn remove_tokens(key: Seq<char>) -> Seq<Seq<char>> {
    seq!["rm"@, key]
}

/// Whether a character is white space.
fn space(c: char) -> (r: bool)
    ensures
        r == is_space(c),
{
    ('\u{9}' <= c && c <= '\u{d}') || c == ' ' || c == '\u{85}' || c == '\u{a0}' || c == '\u{1680}'
        || ('\u{2000}' <= c && c <= '\u{200a}') || c == '\u{2028}' || c == '\u{2029}' || c
        == '\u{202f}' || c == '\u{205f}' || c == '\u{3000}'
}

/// `s` without the white space at its start and at its end.
pub fn trim(s: &str) -> (r: String)
    ensures
        r@ == trimmed(s@),
{
    let chars = chars_of(s);
    let mut start: usize = 0;
    proof {
        assert(chars@.skip(0) =~= chars@);
    }
    while start < chars.len() && space(chars[start])
        invariant
            start <= chars@.len(),
            leading(chars@) == start + leading(chars@.skip(start as int)),
        decreases chars@.len() - start,
    {
        proof {
            assert(chars@.skip(start as int)[0] == chars@[start as int]);
            assert(chars@.skip(start as int).drop_first() =~= chars@.skip(start + 1));
        }
        start += 1;
    }
    proof {
        if start < chars@.len() {
            assert(chars@.skip(start as int)[0] == chars@[start as int]);
        }
        assert(leading(chars@) == start);
    }
    if start == chars.len() {
        return String::new();
    }
    let mut end: usize = chars.len();
    proof {
        assert(chars@.take(end as int) =~= chars@);
    }
    while end > 0 && space(chars[end - 1])
        invariant
            start < end <= chars@.len(),
            !is_space(chars@[start as int]),
            trailing(chars@) == chars@.len() - end + trailing(chars@.take(end as int)),
        decreases end,
    {
        proof {
            assert(chars@.take(end as int).drop_last() =~= chars@.take(end - 1));
            assert(chars@.take(end as int).last() == chars@[end - 1]);
        }
        end -= 1;
    }
    proof {
        assert(chars@.take(end as int).last() == chars@[end - 1]);
        assert(trailing(chars@) == chars@.len() - end);
    }
    string_of(vstd::slice::slice_subrange(chars.as_slice(), start, end))
}

/// What the client makes of what it read from the connection: nothing
/// where the connection gave no line, and the line without the white space
/// around it otherwise.
pub fn response_text(line: &str) -> (r: Option<String>)
    ensures
        match r {
            Some(text) => line@.len() > 0 && text@ == trimmed(line@),
            None => line@.len() == 0,
        },
{
    if line.is_empty() {
        None
    } else {
        Some(trim(line))
    }
}

/// The request that sets a key.
pub fn set_request(key: String, value: String) -> (req: Message)
    ensures
        token_views(req@) == set_tokens(key@, value@),
{
    let mut req: Vec<String> = Vec::new();
    req.push("set".to_string());
    req.push(key);
    req.push(value);
    proof {
        assert(token_views(req@) =~= set_tokens(key@, value@));
    }
    req
}

/// The request that asks for the value of a key.
pub fn get_request(key: String) -> (req: Message)
    ensures
        token_views(req@) == get_tokens(key@),
{
    let mut req: Vec<String> = Vec::new();
    req.push("get".to_string());
    req.push(key);
    proof {
        assert(token_views(req@) =~= get_tokens(key@));
    }
    req
}

/// The request that removes a key.
pub fn remove_request(key: String) -> (req: Message)
    ensures
        token_views(req@) == remove_tokens(key@),
{
    let mut req: Vec<String> = Vec::new();
    req.push("rm".to_string());
    req.push(key);
    proof {
        assert(token_views(req@) =~= remove_tokens(key@));
    }
    req
}

/// What the answer to a `set` means: done where it is `OK`, and
/// `InvalidServerResponse` otherwise.
pub fn set_response(response: Option<String>) -> (r: Result<(), KvsError>)
    ensures
        match response {
            Some(text) => if text@ == "OK"@ {
                r is Ok
            } else {
                r matches Err(KvsError::InvalidServerResponse)
            },
            None => r matches Err(KvsError::InvalidServerResponse),
        },
{
    match response {
        Some(text) => {
            if same_text(&text, &"OK".to_string()) {
                Ok(())
            } else {
                Err(KvsError::InvalidServerResponse)
            }
        },
        None => Err(KvsError::InvalidServerResponse),
    }
}

/// What the answer to a `get` means: no value where the server gave no
/// line or the line `Key not found`, and the text of the line as the value
/// otherwise.
pub fn get_response(response: Option<String>) -> (r: Result<Option<String>, KvsError>)
    ensures
        match response {
            Some(text) => if text@ == KvsError::KeyNotFound.text() {
                r matches Ok(None)
            } else {
                r matches Ok(Some(value)) && value@ == text@
            },
            None => r matches Ok(None),
        },
{
    match response {
        Some(text) => {
            if same_text(&text, &KvsError::KeyNotFound.message()) {
                Ok(None)
            } else {
                Ok(Some(text))
            }
        },
        None => Ok(None),
    }
}

/// What the answer to an `rm` means: done where it is `OK`, `KeyNotFound`
/// where it is another line, and `InvalidServerResponse` where the server
/// gave no line.
pub fn remove_response(response: Option<String>) -> (r: Result<(), KvsError>)
    ensures
        match response {
            Some(text) => if text@ == "OK"@ {
                r is Ok
            } else {
                r matches Err(KvsError::KeyNotFound)
            },
            None => r matches Err(KvsError::InvalidServerResponse),
        },
{
    match response {
        Some(text) => {
            if same_text(&text, &"OK".to_string()) {
                Ok(())
            } else {
                Err(KvsError::KeyNotFound)
            }
        },
        None => Err(KvsError::InvalidServerResponse),
    }
}

} // verus!
