//! The line protocol: a message is a list of tokens, written on one line
//! with spaces between them and a line feed at the end.

use vstd::prelude::*;
use crate::error::KvsError;
use crate::text::{chars_of, string_of};

verus! {

/// A request or a response: its tokens.
pub type Message = Vec<String>;

/// The tokens of a message, over sequences of characters.
pub open spec fn token_views(msg: Seq<String>) -> Seq<Seq<char>> {
    Seq::new(msg.len(), |i: int| msg[i]@)
}

/// A line without the line feed at its end, if it has one.
pub open spec fn body(line: Seq<char>) -> Seq<char> {
    if line.len() > 0 && line.last() == '\n' {
        line.drop_last()
    } else {
        line
    }
}

/// The tokens that are complete after `s` has been read, and the
/// characters of the token that is still open.
pub open spec fn split(s: Seq<char>) -> (Seq<Seq<char>>, Seq<char>)
    decreases s.len(),
{
    if s.len() == 0 {
        (Seq::empty(), Seq::empty())
    } else {
        let (done, open) = split(s.drop_last());
        if s.last() != ' ' {
            (done, open.push(s.last()))
        } else if open.len() > 0 {
            (done.push(open), Seq::empty())
        } else {
            (done, open)
        }
    }
}

/// The tokens of `s`: the runs of characters other than the space, in
/// their order.
pub open spec fn tokens(s: Seq<char>) -> Seq<Seq<char>> {
    let (done, open) = split(s);
    if open.len() > 0 {
        done.push(open)
    } else {
        done
    }
}

/// The tokens, each followed by a space.
pub open spec fn joined(msg: Seq<Seq<char>>) -> Seq<char>
    decreases msg.len(),
{
    if msg.len() == 0 {
        Seq::empty()
    } else {
        joined(msg.drop_last()) + msg.last().push(' ')
    }
}

/// The line that carries the tokens.
pub open spec fn line_of(msg: Seq<Seq<char>>) -> Seq<char> {
    joined(msg).push('\n')
}

/// Reads the tokens of a line.  The line feed at the end of the line, if
/// there is one, belongs to no token.
pub fn decode(line: String) -> (r: Result<Message, KvsError>)
    ensures
        r matches Ok(msg) && token_views(msg@) == tokens(body(line@)),
{
    let chars = chars_of(line.as_str());
    let mut end: usize = chars.len();
    if end > 0 && chars[end - 1] == '\n' {
        end -= 1;
    }
    let ghost text = body(line@);
    proof {
        assert(text =~= chars@.take(end as int));
        assert(text.take(0) =~= Seq::empty());
    }
    let mut msg: Vec<String> = Vec::new();
    let mut open: Vec<char> = Vec::new();
    let mut i: usize = 0;
    while i < end
        invariant
            i <= end <= chars@.len(),
            text == chars@.take(end as int),
            split(text.take(i as int)) == (token_views(msg@), open@),
        decreases end - i,
    {
        let c = chars[i];
        proof {
            assert(text.take(i + 1).drop_last() =~= text.take(i as int));
            assert(text.take(i + 1).last() == c);
        }
        if c != ' ' {
            open.push(c);
        } else if open.len() > 0 {
            let ghost before = token_views(msg@);
            msg.push(string_of(open.as_slice()));
            proof {
                assert(token_views(msg@) =~= before.push(open@));
            }
            open = Vec::new();
        }
        i += 1;
    }
    proof {
        assert(text.take(end as int) =~= text);
    }
    if open.len() > 0 {
        let ghost before = token_views(msg@);
        msg.push(string_of(open.as_slice()));
        proof {
            assert(token_views(msg@) =~= before.push(open@));
        }
    }
    Ok(msg)
}

/// Writes the tokens on one line: each followed by a space, and a line
/// feed at the end.
pub fn encode(req: Message) -> (r: Result<String, KvsError>)
    ensures
        r matches Ok(line) && line@ == line_of(token_views(req@)),
{
    let mut line = String::new();
    let mut i: usize = 0;
    let ghost msg = token_views(req@);
    proof {
        assert(msg.take(0) =~= Seq::empty());
    }
    while i < req.len()
        invariant
            i <= req@.len(),
            msg == token_views(req@),
            line@ == joined(msg.take(i as int)),
        decreases req@.len() - i,
    {
        proof {
            assert(msg.take(i + 1).drop_last() =~= msg.take(i as int));
            assert(msg.take(i + 1).last() == req@[i as int]@);
        }
        line.append(req[i].as_str());
        line.push(' ');
        proof {
            assert(line@ =~= joined(msg.take(i as int)) + msg[i as int].push(' '));
        }
        i += 1;
    }
    proof {
        assert(msg.take(req@.len() as int) =~= msg);
    }
    line.push('\n');
    Ok(line)
}

} // verus!
