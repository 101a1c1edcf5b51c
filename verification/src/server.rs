//! The request dispatcher: what the server answers to one line of a
//! connection, and what that does to the engine.

use vstd::prelude::*;
use crate::codec::{body, decode, token_views, tokens, Message};
use crate::engine::KvsEngine;
use crate::error::KvsError;
use crate::file_store::{image, op_views, run, DiskOp, DiskOpView};
use crate::kvs::KvStore;
use crate::record::same_text;

verus! {

/// One request of a client.
#[derive(Debug)]
pub enum Request {
    /// The value of the key is asked for.
    Get {
        /// The key that is looked up.
        key: String,
    },
    /// The key is to get the value.
    Put {
        /// The key that is set.
        key: String,
        /// The value that it gets.
        value: String,
    },
    /// The key is to lose its value.
    Remove {
        /// The key that is removed.
        key: String,
    },
    /// The line is no request.
    Invalid,
}

/// What a `Request` is, over sequences of characters.
pub enum RequestView {
    Get { key: Seq<char> },
    Put { key: Seq<char>, value: Seq<char> },
    Remove { key: Seq<char> },
    Invalid,
}

impl View for Request {
    type V = RequestView;

    open spec fn view(&self) -> RequestView {
        match self {
            Request::Get { key } => RequestView::Get { key: key@ },
            Request::Put { key, value } => RequestView::Put { key: key@, value: value@ },
            Request::Remove { key } => RequestView::Remove { key: key@ },
            Request::Invalid => RequestView::Invalid,
        }
    }
}

/// The request that the tokens of a line make: `get <key>`, `set <key>
/// <value>` or `rm <key>`.  Tokens behind these are not looked at.
pub open spec fn request_of(msg: Seq<Seq<char>>) -> RequestView {
    if msg.len() <= 1 {
        RequestView::Invalid
    } else if msg[0] == "get"@ {
        RequestView::Get { key: msg[1] }
    } else if msg[0] == "set"@ {
        if msg.len() >= 3 {
            RequestView::Put { key: msg[1], value: msg[2] }
        } else {
            RequestView::Invalid
        }
    } else if msg[0] == "rm"@ {
        RequestView::Remove { key: msg[1] }
    } else {
        RequestView::Invalid
    }
}

/// A text as one line of the connection.
pub open spec fn framed(text: Seq<char>) -> Seq<char> {
    text.push('\n')
}

/// The text that answers the request, asked of an engine that says what
/// it holds and when it fails: the value or `Key not found` for a `get`,
/// `OK` for a `set` or an `rm`, `Invalid request` for a line that is no
/// request, and the text of the engine's error where the engine fails.
pub open spec fn reply_text<K: KvsEngine>(engine: &K, req: RequestView) -> Seq<char> {
    match req {
        RequestView::Invalid => KvsError::InvalidRequest.text(),
        RequestView::Get { key } => match engine.refuses_get(key) {
            Some(text) => text,
            None => if engine.contents().contains_key(key) {
                engine.contents()[key]
            } else {
                KvsError::KeyNotFound.text()
            },
        },
        RequestView::Put { key, value } => match engine.refuses_set(key, value) {
            Some(text) => text,
            None => "OK"@,
        },
        RequestView::Remove { key } => match engine.refuses_remove(key) {
            Some(text) => text,
            None => "OK"@,
        },
    }
}

/// The keys and values after the request, asked of an engine that says
/// what it holds and when it fails.  Only a `set` and an `rm` that the
/// engine does not fail change anything.
pub open spec fn contents_after<K: KvsEngine>(engine: &K, req: RequestView) -> Map<
    Seq<char>,
    Seq<char>,
> {
    match req {
        RequestView::Put { key, value } => if engine.refuses_set(key, value) is None {
            engine.contents().insert(key, value)
        } else {
            engine.contents()
        },
        RequestView::Remove { key } => if engine.refuses_remove(key) is None {
            engine.contents().remove(key)
        } else {
            engine.contents()
        },
        _ => engine.contents(),
    }
}

/// Reads the request out of the tokens of a line.
pub fn parse_request(msg: &Message) -> (req: Request)
    ensures
        req@ == request_of(token_views(msg@)),
{
    if msg.len() <= 1 {
        return Request::Invalid;
    }
    let verb = &msg[0];
    if same_text(verb, &"get".to_string()) {
        Request::Get { key: msg[1].clone() }
    } else if same_text(verb, &"set".to_string()) {
        if msg.len() >= 3 {
            Request::Put { key: msg[1].clone(), value: msg[2].clone() }
        } else {
            Request::Invalid
        }
    } else if same_text(verb, &"rm".to_string()) {
        Request::Remove { key: msg[1].clone() }
    } else {
        Request::Invalid
    }
}

/// The line that carries `text`.
pub fn frame(text: String) -> (line: String)
    ensures
        line@ == framed(text@),
{
    let mut line = text;
    line.push('\n');
    line
}

/// The line that answers a `get`: the value, `Key not found`, or the error.
pub fn reply_get(r: Result<Option<String>, KvsError>) -> (line: String)
    ensures
        line@ == framed(
            match r {
                Ok(Some(value)) => value@,
                Ok(None) => KvsError::KeyNotFound.text(),
                Err(e) => e.text(),
            },
        ),
{
    match r {
        Ok(Some(value)) => frame(value),
        Ok(None) => frame(KvsError::KeyNotFound.message()),
        Err(e) => frame(e.message()),
    }
}

/// The line that answers a `set` or an `rm`: `OK`, or the error.
pub fn reply_done(r: Result<(), KvsError>) -> (line: String)
    ensures
        line@ == framed(
            match r {
                Ok(()) => "OK"@,
                Err(e) => e.text(),
            },
        ),
{
    match r {
        Ok(()) => frame("OK".to_string()),
        Err(e) => frame(e.message()),
    }
}

/// A server: the address that it listens on, and the engine that it serves.
pub struct KvsServer<K: KvsEngine> {
    addr: String,
    engine: K,
}

impl<K: KvsEngine> KvsServer<K> {
    /// The engine that the server serves.
    pub closed spec fn engine(&self) -> K {
        self.engine
    }

    /// The address, as a sequence of characters.
    pub closed spec fn address(&self) -> Seq<char> {
        self.addr@
    }

    /// Whether `reply` and the server `after` are what the request on
    /// `line` leaves of the server `before`.  The reply is one line.  A
    /// line that is no request is answered with `Invalid request` and does
    /// not reach the engine.  Of an engine that says what it holds and when
    /// it fails, the reply and the keys and values afterwards are known.
    pub open spec fn responded(before: &Self, line: Seq<char>, reply: Seq<char>, after: &Self) -> bool {
        let req = request_of(tokens(body(line)));
        &&& after.address() == before.address()
        &&& reply.len() > 0 && reply.last() == '\n'
        &&& req is Invalid ==> reply == framed(KvsError::InvalidRequest.text()) && after.engine()
            == before.engine()
        &&& before.engine().modelled() ==> {
            &&& after.engine().modelled()
            &&& reply == framed(reply_text(&before.engine(), req))
            &&& after.engine().contents() == contents_after(&before.engine(), req)
        }
    }

    /// A server that is to listen on `addr` and serves `engine`.
    pub fn new(addr: String, engine: K) -> (r: Result<Self, KvsError>)
        ensures
            r matches Ok(server) && server.address() == addr@ && server.engine() == engine,
    {
        Ok(KvsServer { addr, engine })
    }

    /// The address that the server is to listen on.
    pub fn addr(&self) -> (addr: &String)
        ensures
            addr@ == self.address(),
    {
        &self.addr
    }

    /// Serves one request: reads the line, asks the engine, and gives the
    /// line that answers.
    pub fn respond(&mut self, line: String) -> (reply: String)
        ensures
            Self::responded(old(self), line@, reply@, final(self)),
    {
        let msg = match decode(line) {
            Ok(msg) => msg,
            Err(e) => { return frame(e.message()); },
        };
        match parse_request(&msg) {
            Request::Get { key } => reply_get(self.engine.get(key)),
            Request::Put { key, value } => reply_done(self.engine.set(key, value)),
            Request::Remove { key } => reply_done(self.engine.remove(key)),
            Request::Invalid => frame(KvsError::InvalidRequest.message()),
        }
    }

    /// Takes one step of a connection.  `line` is what was read from it:
    /// nothing at the end of the stream, where the connection is to be
    /// closed, and one request otherwise, which is served.
    pub fn step(&mut self, line: String) -> (r: Option<String>)
        ensures
            match r {
                None => line@.len() == 0 && final(self).address() == old(self).address() && final(self).engine() == old(self).engine(),
                Some(reply) => line@.len() > 0 && Self::responded(
                    old(self),
                    line@,
                    reply@,
                    final(self),
                ),
            },
    {
        if line.as_str().is_empty() {
            None
        } else {
            Some(self.respond(line))
        }
    }
}

/// Answers one request to the store of this library.
fn answer(store: &mut KvStore, req: Request) -> (reply: String)
    ensures
        reply@ == framed(reply_text(&*old(store), req@)),
        final(store).contents() == contents_after(&*old(store), req@),
        final(store)@.files.disk == old(store)@.files.disk,
        req@ is Invalid ==> *final(store) == *old(store),
{
    match req {
        Request::Get { key } => reply_get(KvStore::get(store, key)),
        Request::Put { key, value } => reply_done(KvStore::set(store, key, value)),
        Request::Remove { key } => reply_done(KvStore::remove(store, key)),
        Request::Invalid => frame(KvsError::InvalidRequest.message()),
    }
}

impl KvsServer<KvStore> {
    /// Takes one step of a connection to the store of this library, and
    /// hands out what the step asks of the files.  `line` is what was read
    /// from the connection: nothing at the end of the stream, where the
    /// connection is to be closed, and one request otherwise, which is
    /// served.  The changes are those that the files have not seen yet, to
    /// be made in their order before the reply is sent; made on the files
    /// as they were when changes were last handed out, they lead to the
    /// segments of the store.
    pub fn serve(&mut self, line: String) -> (r: (Option<String>, Vec<DiskOp>))
        ensures
            match r.0 {
                None => line@.len() == 0 && final(self).engine().contents() == old(self).engine().contents(),
                Some(reply) => {
                    let req = request_of(tokens(body(line@)));
                    &&& line@.len() > 0
                    &&& reply@ == framed(reply_text(&old(self).engine(), req))
                    &&& final(self).engine().contents() == contents_after(&old(self).engine(), req)
                },
            },
            final(self).address() == old(self).address(),
            final(self).engine()@.wf(),
            final(self).engine()@.files.journal == Seq::<DiskOpView>::empty(),
            final(self).engine()@.files.disk == image(final(self).engine()@.files.segments),
            run(old(self).engine()@.files.disk, op_views(r.1@)) == image(
                final(self).engine()@.files.segments,
            ),
    {
        let reply = if line.as_str().is_empty() {
            None
        } else {
            let msg = match decode(line) {
                Ok(msg) => msg,
                Err(_) => Vec::new(),
            };
            Some(answer(&mut self.engine, parse_request(&msg)))
        };
        let ghost served = self.engine@;
        let ops = self.engine.take_journal();
        proof {
            assert(self.engine@.files.log() == served.files.log());
            assert(self.engine@.contents() == served.contents());
        }
        (reply, ops)
    }
}

} // verus!
