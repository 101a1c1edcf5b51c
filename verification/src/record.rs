//! The encoding of a command as one record of the log.
//!
//! A record is a JSON object, `{"Set":{"key":K,"value":V}}` or
//! `{"Del":{"key":K}}`, where `K` and `V` are JSON strings.  Records follow
//! each other in a segment without separators.  The frame around the strings
//! is read and written here; the strings themselves are left to
//! `serde_json`.  Since that library is not verified, a record is handed out
//! by `encode_command` only after it has been read back as the same command.

use vstd::prelude::*;
use vstd::slice::slice_subrange;
use crate::command::{Command, CommandView};
use crate::error::KvsError;
use crate::json::{
    all_plain, is_quoted, json_string, json_text, quoted, string_from_json, string_to_json,
    unquoted,
};

verus! {

/// The byte `"`.
pub const QUOTE: u8 = 0x22;

/// The byte `\`.
pub const BACKSLASH: u8 = 0x5c;

/// The bytes `{"Set":{"key":`, which open a record that sets a key.
pub open spec fn put_head() -> Seq<u8> {
    seq![
        0x7bu8, 0x22u8, 0x53u8, 0x65u8, 0x74u8, 0x22u8, 0x3au8, 0x7bu8, 0x22u8, 0x6bu8, 0x65u8,
        0x79u8, 0x22u8, 0x3au8,
    ]
}

/// The bytes `{"Del":{"key":`, which open a record that deletes a key.
pub open spec fn del_head() -> Seq<u8> {
    seq![
        0x7bu8, 0x22u8, 0x44u8, 0x65u8, 0x6cu8, 0x22u8, 0x3au8, 0x7bu8, 0x22u8, 0x6bu8, 0x65u8,
        0x79u8, 0x22u8, 0x3au8,
    ]
}

/// The bytes `,"value":`, which stand between key and value.
pub open spec fn value_head() -> Seq<u8> {
    seq![0x2cu8, 0x22u8, 0x76u8, 0x61u8, 0x6cu8, 0x75u8, 0x65u8, 0x22u8, 0x3au8]
}

/// The bytes `}}`, which close a record.
pub open spec fn tail() -> Seq<u8> {
    seq![0x7du8, 0x7du8]
}

/// The outcome of looking for fixed bytes at a position.
#[derive(PartialEq, Eq, Structural, Clone, Copy, Debug)]
pub enum Expect {
    /// The bytes are there.
    Found,
    /// The input ends before the bytes do, and agrees with them as far as it goes.
    Short,
    /// The input differs from the bytes.
    Wrong,
}

/// Whether `pat` stands in `bytes` at `pos`.
pub open spec fn expect(bytes: Seq<u8>, pos: int, pat: Seq<u8>) -> Expect {
    let n = if bytes.len() - pos < pat.len() {
        bytes.len() - pos
    } else {
        pat.len() as int
    };
    if bytes.subrange(pos, pos + n) != pat.subrange(0, n) {
        Expect::Wrong
    } else if n < pat.len() {
        Expect::Short
    } else {
        Expect::Found
    }
}

/// Where the JSON string ends whose opening quote stands just before `i`:
/// the position after the first quote that no backslash protects.
pub open spec fn literal_end(bytes: Seq<u8>, i: int) -> Option<int>
    decreases bytes.len() - i,
{
    if i < 0 || i >= bytes.len() {
        None
    } else if bytes[i] == QUOTE {
        Some(i + 1)
    } else if bytes[i] == BACKSLASH {
        if i + 1 < bytes.len() {
            literal_end(bytes, i + 2)
        } else {
            None
        }
    } else {
        literal_end(bytes, i + 1)
    }
}

/// The outcome of reading a JSON string at a position.
pub enum Text {
    /// The string, and the position after its closing quote.
    Found { text: Seq<char>, end: int },
    /// The input ends inside the string.
    Short,
    /// No string starts here, or `serde_json` refuses it.
    Wrong,
}

/// The JSON string that stands in `bytes` at `pos`.
pub open spec fn text_at(bytes: Seq<u8>, pos: int) -> Text {
    if pos >= bytes.len() {
        Text::Short
    } else if bytes[pos] != QUOTE {
        Text::Wrong
    } else {
        match literal_end(bytes, pos + 1) {
            None => Text::Short,
            Some(end) => match json_string(bytes.subrange(pos, end)) {
                Some(text) => Text::Found { text, end },
                None => Text::Wrong,
            },
        }
    }
}

/// The outcome of reading one record.
pub enum Parse {
    /// A record of `len` bytes that holds `cmd`.
    Record { cmd: CommandView, len: nat },
    /// The input ends inside the record.
    Truncated,
    /// The bytes are no record.
    Malformed,
}

/// What remains of a record that sets a key, behind its head.
pub open spec fn parse_put(bytes: Seq<u8>, pos: int) -> Parse {
    match text_at(bytes, pos + 14) {
        Text::Short => Parse::Truncated,
        Text::Wrong => Parse::Malformed,
        Text::Found { text: key, end: key_end } => match expect(bytes, key_end, value_head()) {
            Expect::Short => Parse::Truncated,
            Expect::Wrong => Parse::Malformed,
            Expect::Found => match text_at(bytes, key_end + 9) {
                Text::Short => Parse::Truncated,
                Text::Wrong => Parse::Malformed,
                Text::Found { text: value, end: value_end } => match expect(
                    bytes,
                    value_end,
                    tail(),
                ) {
                    Expect::Short => Parse::Truncated,
                    Expect::Wrong => Parse::Malformed,
                    Expect::Found => Parse::Record {
                        cmd: CommandView::Put { key, value },
                        len: (value_end + 2 - pos) as nat,
                    },
                },
            },
        },
    }
}

/// What remains of a record that deletes a key, behind its head.
pub open spec fn parse_del(bytes: Seq<u8>, pos: int) -> Parse {
    match text_at(bytes, pos + 14) {
        Text::Short => Parse::Truncated,
        Text::Wrong => Parse::Malformed,
        Text::Found { text: key, end: key_end } => match expect(bytes, key_end, tail()) {
            Expect::Short => Parse::Truncated,
            Expect::Wrong => Parse::Malformed,
            Expect::Found => Parse::Record {
                cmd: CommandView::Del { key },
                len: (key_end + 2 - pos) as nat,
            },
        },
    }
}

/// The record that starts in `bytes` at `pos`.
pub open spec fn parse_at(bytes: Seq<u8>, pos: int) -> Parse {
    match expect(bytes, pos, put_head()) {
        Expect::Found => parse_put(bytes, pos),
        Expect::Short => Parse::Truncated,
        Expect::Wrong => match expect(bytes, pos, del_head()) {
            Expect::Found => parse_del(bytes, pos),
            Expect::Short => Parse::Truncated,
            Expect::Wrong => Parse::Malformed,
        },
    }
}

/// The bytes of the record for `cmd`, or `None` where `serde_json` refuses
/// one of its strings.
pub open spec fn record_bytes(cmd: CommandView) -> Option<Seq<u8>> {
    match cmd {
        CommandView::Put { key, value } => match (json_text(key), json_text(value)) {
            (Ok(k), Ok(v)) => Some(put_head() + k + value_head() + v + tail()),
            _ => None,
        },
        CommandView::Del { key } => match json_text(key) {
            Ok(k) => Some(del_head() + k + tail()),
            Err(_) => None,
        },
    }
}

/// The description of the error with which `serde_json` refuses a string
/// of `cmd`: the key, or else the value.
pub open spec fn refusal(cmd: CommandView) -> Seq<char> {
    match cmd {
        CommandView::Put { key, value } => match json_text(key) {
            Err(text) => text,
            Ok(_) => json_text(value)->Err_0,
        },
        CommandView::Del { key } => json_text(key)->Err_0,
    }
}

/// Whether `e` is the error for a command that cannot be written:
/// `SerdeJson` with the description of `serde_json` where that refuses a
/// string of the command, and `InternalError` otherwise.
pub open spec fn refused(cmd: CommandView, e: KvsError) -> bool {
    if record_bytes(cmd) is None {
        e matches KvsError::SerdeJson(text) && text@ == refusal(cmd)
    } else {
        e is InternalError
    }
}

/// The text of the error for a command that cannot be written.
pub open spec fn refusal_text(cmd: CommandView) -> Seq<char> {
    if record_bytes(cmd) is None {
        refusal(cmd)
    } else {
        KvsError::InternalError.text()
    }
}

/// Whether `cmd` has a record that reads back as `cmd`.
pub open spec fn encodable(cmd: CommandView) -> bool {
    match record_bytes(cmd) {
        Some(bytes) => parse_at(bytes, 0) == (Parse::Record { cmd, len: bytes.len() }),
        None => false,
    }
}

/// Two inputs that agree on a window agree on every part of it.
pub proof fn lemma_window_part(a: Seq<u8>, pa: int, b: Seq<u8>, pb: int, len: int, x: int, y: int)
    requires
        0 <= pa,
        0 <= pb,
        0 <= len,
        pa + len <= a.len(),
        pb + len <= b.len(),
        a.subrange(pa, pa + len) == b.subrange(pb, pb + len),
        pa <= x <= y <= pa + len,
    ensures
        a.subrange(x, y) == b.subrange(x - pa + pb, y - pa + pb),
{
    assert forall|j: int| 0 <= j < y - x implies a.subrange(x, y)[j] == b.subrange(
        x - pa + pb,
        y - pa + pb,
    )[j] by {
        assert(a.subrange(pa, pa + len)[x - pa + j] == a[x + j]);
        assert(b.subrange(pb, pb + len)[x - pa + j] == b[pb + x - pa + j]);
    }
    assert(a.subrange(x, y) =~= b.subrange(x - pa + pb, y - pa + pb));
}

/// Fixed bytes that are found lie inside the input.
pub proof fn lemma_expect_found(bytes: Seq<u8>, pos: int, pat: Seq<u8>)
    requires
        0 <= pos <= bytes.len(),
    ensures
        expect(bytes, pos, pat) is Found <==> pos + pat.len() <= bytes.len() && bytes.subrange(
            pos,
            pos + pat.len(),
        ) == pat,
{
    assert(pat.subrange(0, pat.len() as int) =~= pat);
}

/// The end of a JSON string lies behind its start and inside the input.
pub proof fn lemma_literal_end_bounds(bytes: Seq<u8>, i: int)
    requires
        literal_end(bytes, i) is Some,
    ensures
        0 <= i < literal_end(bytes, i)->0 <= bytes.len(),
    decreases bytes.len() - i,
{
    if bytes[i] == QUOTE {
    } else if bytes[i] == BACKSLASH {
        lemma_literal_end_bounds(bytes, i + 2);
    } else {
        lemma_literal_end_bounds(bytes, i + 1);
    }
}

/// The end of a JSON string depends only on the bytes up to that end.
pub proof fn lemma_literal_end_window(a: Seq<u8>, pa: int, b: Seq<u8>, pb: int, len: int, i: int)
    requires
        0 <= pa,
        0 <= pb,
        0 <= len,
        pa + len <= a.len(),
        pb + len <= b.len(),
        a.subrange(pa, pa + len) == b.subrange(pb, pb + len),
        pa <= i,
        literal_end(a, i) is Some,
        literal_end(a, i)->0 <= pa + len,
    ensures
        literal_end(b, i - pa + pb) == Some(literal_end(a, i)->0 - pa + pb),
    decreases a.len() - i,
{
    lemma_literal_end_bounds(a, i);
    assert(a.subrange(pa, pa + len)[i - pa] == a[i]);
    assert(b.subrange(pb, pb + len)[i - pa] == b[i - pa + pb]);
    if a[i] == QUOTE {
    } else if a[i] == BACKSLASH {
        lemma_literal_end_bounds(a, i + 2);
        lemma_literal_end_window(a, pa, b, pb, len, i + 2);
    } else {
        lemma_literal_end_window(a, pa, b, pb, len, i + 1);
    }
}

/// A JSON string that was found depends only on the bytes that it takes.
pub proof fn lemma_text_window(a: Seq<u8>, pa: int, b: Seq<u8>, pb: int, len: int, i: int)
    requires
        0 <= pa,
        0 <= pb,
        0 <= len,
        pa + len <= a.len(),
        pb + len <= b.len(),
        a.subrange(pa, pa + len) == b.subrange(pb, pb + len),
        pa <= i,
        text_at(a, i) matches Text::Found { end, .. } && end <= pa + len,
    ensures
        text_at(a, i) matches Text::Found { text, end } && text_at(b, i - pa + pb) == (Text::Found {
            text,
            end: end - pa + pb,
        }) && i < end,
{
    let end = literal_end(a, i + 1)->0;
    lemma_literal_end_bounds(a, i + 1);
    lemma_literal_end_window(a, pa, b, pb, len, i + 1);
    assert(a.subrange(pa, pa + len)[i - pa] == a[i]);
    assert(b.subrange(pb, pb + len)[i - pa] == b[i - pa + pb]);
    lemma_window_part(a, pa, b, pb, len, i, end);
}

/// Fixed bytes that were found inside a window are found in every input
/// that agrees on the window.
pub proof fn lemma_expect_window(
    a: Seq<u8>,
    pa: int,
    b: Seq<u8>,
    pb: int,
    len: int,
    i: int,
    pat: Seq<u8>,
)
    requires
        0 <= pa,
        0 <= pb,
        0 <= len,
        pa + len <= a.len(),
        pb + len <= b.len(),
        a.subrange(pa, pa + len) == b.subrange(pb, pb + len),
        pa <= i <= pa + len,
        i + pat.len() <= pa + len,
    ensures
        expect(b, i - pa + pb, pat) == expect(a, i, pat),
{
    lemma_window_part(a, pa, b, pb, len, i, i + pat.len());
}

/// A record takes at least one byte and lies inside the input.
pub proof fn lemma_record_bounds(bytes: Seq<u8>, pos: int)
    requires
        0 <= pos <= bytes.len(),
        parse_at(bytes, pos) is Record,
    ensures
        0 < parse_at(bytes, pos)->len,
        pos + parse_at(bytes, pos)->len <= bytes.len(),
{
    lemma_expect_found(bytes, pos, put_head());
    lemma_expect_found(bytes, pos, del_head());
    let key_end = text_at(bytes, pos + 14)->end;
    lemma_literal_end_bounds(bytes, pos + 15);
    lemma_expect_found(bytes, key_end, tail());
    if expect(bytes, pos, put_head()) is Found {
        lemma_expect_found(bytes, key_end, value_head());
        let value_end = text_at(bytes, key_end + 9)->end;
        lemma_literal_end_bounds(bytes, key_end + 10);
        lemma_expect_found(bytes, value_end, tail());
    }
}

/// A record depends only on the bytes that it takes: an input that holds
/// the same bytes at some position holds the same record there.
pub proof fn lemma_record_window(a: Seq<u8>, pa: int, b: Seq<u8>, pb: int)
    requires
        0 <= pa <= a.len(),
        0 <= pb,
        parse_at(a, pa) is Record,
        pa + parse_at(a, pa)->len <= a.len(),
        pb + parse_at(a, pa)->len <= b.len(),
        a.subrange(pa, pa + parse_at(a, pa)->len) == b.subrange(pb, pb + parse_at(a, pa)->len),
    ensures
        parse_at(b, pb) == parse_at(a, pa),
{
    let len = parse_at(a, pa)->len as int;
    lemma_record_bounds(a, pa);
    lemma_expect_found(a, pa, put_head());
    lemma_expect_found(a, pa, del_head());
    lemma_expect_found(b, pb, put_head());
    lemma_expect_found(b, pb, del_head());
    let key_end = text_at(a, pa + 14)->end;
    lemma_literal_end_bounds(a, pa + 15);
    lemma_expect_found(a, key_end, tail());
    if expect(a, pa, put_head()) is Found {
        lemma_expect_found(a, key_end, value_head());
        let value_end = text_at(a, key_end + 9)->end;
        lemma_literal_end_bounds(a, key_end + 10);
        lemma_expect_found(a, value_end, tail());
        lemma_window_part(a, pa, b, pb, len, pa, pa + 14);
        lemma_text_window(a, pa, b, pb, len, pa + 14);
        lemma_expect_window(a, pa, b, pb, len, key_end, value_head());
        lemma_text_window(a, pa, b, pb, len, key_end + 9);
        lemma_expect_window(a, pa, b, pb, len, value_end, tail());
    } else {
        assert(put_head()[2] != del_head()[2]);
        lemma_window_part(a, pa, b, pb, len, pa, pa + 14);
        lemma_text_window(a, pa, b, pb, len, pa + 14);
        lemma_expect_window(a, pa, b, pb, len, key_end, tail());
    }
}

/// A JSON string without quotes and backslashes inside ends at its
/// closing quote.
pub proof fn lemma_literal_end_plain(bytes: Seq<u8>, i: int, end: int)
    requires
        0 <= i <= end < bytes.len(),
        forall|j: int| i <= j < end ==> (#[trigger] bytes[j]) != QUOTE && bytes[j] != BACKSLASH,
        bytes[end] == QUOTE,
    ensures
        literal_end(bytes, i) == Some(end + 1),
    decreases end - i,
{
    if i < end {
        assert(bytes[i] != QUOTE && bytes[i] != BACKSLASH);
        lemma_literal_end_plain(bytes, i + 1, end);
    }
}

/// A string of plain characters between two quotes is read as that string.
pub proof fn lemma_text_at_plain(bytes: Seq<u8>, pos: int, s: Seq<char>)
    requires
        0 <= pos,
        all_plain(s),
        pos + s.len() + 2 <= bytes.len(),
        bytes.subrange(pos, pos + s.len() + 2) == quoted(s),
    ensures
        text_at(bytes, pos) == (Text::Found { text: s, end: pos + s.len() + 2 }),
{
    let lit = quoted(s);
    let n = s.len() as int;
    assert forall|j: int| 0 <= j < n + 2 implies bytes[pos + j] == lit[j] by {
        assert(bytes.subrange(pos, pos + n + 2)[j] == bytes[pos + j]);
    }
    assert(lit[0] == QUOTE);
    assert(lit[n + 1] == QUOTE);
    assert forall|j: int| 1 <= j < n + 1 implies 0x20 <= (#[trigger] lit[j]) <= 0x7e && lit[j]
        != QUOTE && lit[j] != BACKSLASH by {
        assert(lit[j] == s[j - 1] as u8);
        assert(crate::json::is_plain(s[j - 1]));
    }
    assert forall|j: int| pos + 1 <= j < pos + n + 1 implies (#[trigger] bytes[j]) != QUOTE
        && bytes[j] != BACKSLASH by {
        assert(bytes[pos + (j - pos)] == lit[j - pos]);
    }
    assert(bytes[pos + (n + 1)] == lit[n + 1]);
    assert(bytes[pos + 0] == lit[0]);
    lemma_literal_end_plain(bytes, pos + 1, pos + n + 1);
    assert(is_quoted(lit));
    assert(unquoted(lit) =~= s) by {
        assert forall|j: int| 0 <= j < n implies unquoted(lit)[j] == s[j] by {
            assert(lit[j + 1] == s[j] as u8);
            assert(crate::json::is_plain(s[j]));
        }
    }
}

/// A command whose strings are of plain characters can be written: its
/// record reads back as the command.
pub proof fn lemma_plain_encodable(cmd: CommandView)
    requires
        all_plain(cmd.key()),
        cmd matches CommandView::Put { value, .. } ==> all_plain(value),
    ensures
        encodable(cmd),
{
    let k = quoted(cmd.key());
    let nk = cmd.key().len() as int;
    match cmd {
        CommandView::Put { key, value } => {
            let v = quoted(value);
            let nv = value.len() as int;
            let b = put_head() + k + value_head() + v + tail();
            assert(b.len() == 29 + nk + nv);
            assert(b.subrange(0, 14) =~= put_head());
            lemma_expect_found(b, 0, put_head());
            assert(b.subrange(14, 16 + nk) =~= k);
            lemma_text_at_plain(b, 14, key);
            assert(b.subrange(16 + nk, 25 + nk) =~= value_head());
            lemma_expect_found(b, 16 + nk, value_head());
            assert(b.subrange(25 + nk, 27 + nk + nv) =~= v);
            lemma_text_at_plain(b, 25 + nk, value);
            assert(b.subrange(27 + nk + nv, 29 + nk + nv) =~= tail());
            lemma_expect_found(b, 27 + nk + nv, tail());
        },
        CommandView::Del { key } => {
            let b = del_head() + k + tail();
            assert(b.len() == 18 + nk);
            assert(b.subrange(0, 14) =~= del_head());
            assert(b.subrange(0, 14)[2] != put_head().subrange(0, 14)[2]);
            lemma_expect_found(b, 0, put_head());
            lemma_expect_found(b, 0, del_head());
            assert(b.subrange(14, 16 + nk) =~= k);
            lemma_text_at_plain(b, 14, key);
            assert(b.subrange(16 + nk, 18 + nk) =~= tail());
            lemma_expect_found(b, 16 + nk, tail());
        },
    }
}

/// A JSON string as `read_text` found it.
enum TextRead {
    Found { text: String, end: usize },
    Short,
    Wrong,
}

impl View for TextRead {
    type V = Text;

    closed spec fn view(&self) -> Text {
        match self {
            TextRead::Found { text, end } => Text::Found { text: text@, end: *end as int },
            TextRead::Short => Text::Short,
            TextRead::Wrong => Text::Wrong,
        }
    }
}

/// One record as `decode_at` found it.
#[derive(Debug)]
pub enum Decoded {
    /// A record of `len` bytes that holds `cmd`.
    Record {
        /// The command of the record.
        cmd: Command,
        /// The number of bytes that the record takes.
        len: usize,
    },
    /// The input ends inside the record.
    Truncated,
    /// The bytes are no record.
    Malformed,
}

impl View for Decoded {
    type V = Parse;

    open spec fn view(&self) -> Parse {
        match self {
            Decoded::Record { cmd, len } => Parse::Record { cmd: cmd@, len: *len as nat },
            Decoded::Truncated => Parse::Truncated,
            Decoded::Malformed => Parse::Malformed,
        }
    }
}

fn put_head_bytes() -> (v: Vec<u8>)
    ensures
        v@ == put_head(),
{
    let v: Vec<u8> = vec![
        0x7bu8, 0x22u8, 0x53u8, 0x65u8, 0x74u8, 0x22u8, 0x3au8, 0x7bu8, 0x22u8, 0x6bu8, 0x65u8,
        0x79u8, 0x22u8, 0x3au8,
    ];
    assert(v@ =~= put_head());
    v
}

fn del_head_bytes() -> (v: Vec<u8>)
    ensures
        v@ == del_head(),
{
    let v: Vec<u8> = vec![
        0x7bu8, 0x22u8, 0x44u8, 0x65u8, 0x6cu8, 0x22u8, 0x3au8, 0x7bu8, 0x22u8, 0x6bu8, 0x65u8,
        0x79u8, 0x22u8, 0x3au8,
    ];
    assert(v@ =~= del_head());
    v
}

fn value_head_bytes() -> (v: Vec<u8>)
    ensures
        v@ == value_head(),
{
    let v: Vec<u8> = vec![0x2cu8, 0x22u8, 0x76u8, 0x61u8, 0x6cu8, 0x75u8, 0x65u8, 0x22u8, 0x3au8];
    assert(v@ =~= value_head());
    v
}

fn tail_bytes() -> (v: Vec<u8>)
    ensures
        v@ == tail(),
{
    let v: Vec<u8> = vec![0x7du8, 0x7du8];
    assert(v@ =~= tail());
    v
}

/// Looks for `pat` in `bytes` at `pos`.
fn expect_at(bytes: &[u8], pos: usize, pat: &[u8]) -> (r: Expect)
    requires
        pos <= bytes@.len(),
    ensures
        r == expect(bytes@, pos as int, pat@),
{
    let total: usize = bytes.len();
    let room: usize = total - pos;
    let mut i: usize = 0;
    while i < pat.len() && i < room
        invariant
            pos <= bytes@.len(),
            total == bytes@.len(),
            room == total - pos,
            i <= pat@.len(),
            i <= room,
            bytes@.subrange(pos as int, pos + i) == pat@.subrange(0, i as int),
        decreases pat@.len() - i,
    {
        if bytes[pos + i] != pat[i] {
            proof {
                let n = if room < pat@.len() {
                    room as int
                } else {
                    pat@.len() as int
                };
                assert(bytes@.subrange(pos as int, pos + n)[i as int] != pat@.subrange(0, n)[i as int]);
            }
            return Expect::Wrong;
        }
        proof {
            assert(bytes@.subrange(pos as int, pos + i + 1) =~= bytes@.subrange(
                pos as int,
                pos + i,
            ).push(bytes@[pos + i]));
            assert(pat@.subrange(0, i + 1) =~= pat@.subrange(0, i as int).push(pat@[i as int]));
        }
        i += 1;
    }
    if i < pat.len() {
        Expect::Short
    } else {
        Expect::Found
    }
}

/// Finds the end of the JSON string whose opening quote stands just before `start`.
fn scan_literal(bytes: &[u8], start: usize) -> (r: Option<usize>)
    requires
        start <= bytes@.len(),
    ensures
        match r {
            Some(end) => literal_end(bytes@, start as int) == Some(end as int) && start < end
                <= bytes@.len(),
            None => literal_end(bytes@, start as int) is None,
        },
{
    let mut i: usize = start;
    while i < bytes.len()
        invariant
            start <= i <= bytes@.len(),
            literal_end(bytes@, start as int) == literal_end(bytes@, i as int),
        decreases bytes@.len() - i,
    {
        let b: u8 = bytes[i];
        if b == QUOTE {
            return Some(i + 1);
        } else if b == BACKSLASH {
            if bytes.len() - i < 2 {
                return None;
            }
            i += 2;
        } else {
            i += 1;
        }
    }
    None
}

/// Reads the JSON string that stands in `bytes` at `pos`.
fn read_text(bytes: &[u8], pos: usize) -> (r: TextRead)
    requires
        pos <= bytes@.len(),
    ensures
        r@ == text_at(bytes@, pos as int),
        r matches TextRead::Found { end, .. } ==> pos < end <= bytes@.len(),
{
    if pos >= bytes.len() {
        return TextRead::Short;
    }
    if bytes[pos] != QUOTE {
        return TextRead::Wrong;
    }
    match scan_literal(bytes, pos + 1) {
        None => TextRead::Short,
        Some(end) => match string_from_json(slice_subrange(bytes, pos, end)) {
            Ok(text) => TextRead::Found { text, end },
            Err(_) => TextRead::Wrong,
        },
    }
}

/// Reads what follows the head of a record that sets a key.
fn decode_put(bytes: &[u8], pos: usize) -> (r: Decoded)
    requires
        pos + 14 <= bytes@.len(),
    ensures
        r@ == parse_put(bytes@, pos as int),
        r matches Decoded::Record { len, .. } ==> 0 < len && pos + len <= bytes@.len(),
{
    let total: usize = bytes.len();
    let (key, key_end) = match read_text(bytes, pos + 14) {
        TextRead::Short => { return Decoded::Truncated; },
        TextRead::Wrong => { return Decoded::Malformed; },
        TextRead::Found { text, end } => (text, end),
    };
    let value_head = value_head_bytes();
    match expect_at(bytes, key_end, value_head.as_slice()) {
        Expect::Short => { return Decoded::Truncated; },
        Expect::Wrong => { return Decoded::Malformed; },
        Expect::Found => {},
    }
    let (value, value_end) = match read_text(bytes, key_end + 9) {
        TextRead::Short => { return Decoded::Truncated; },
        TextRead::Wrong => { return Decoded::Malformed; },
        TextRead::Found { text, end } => (text, end),
    };
    let tail = tail_bytes();
    match expect_at(bytes, value_end, tail.as_slice()) {
        Expect::Short => Decoded::Truncated,
        Expect::Wrong => Decoded::Malformed,
        Expect::Found => Decoded::Record {
            cmd: Command::Put { key, value },
            len: value_end + 2 - pos,
        },
    }
}

/// Reads what follows the head of a record that deletes a key.
fn decode_del(bytes: &[u8], pos: usize) -> (r: Decoded)
    requires
        pos + 14 <= bytes@.len(),
    ensures
        r@ == parse_del(bytes@, pos as int),
        r matches Decoded::Record { len, .. } ==> 0 < len && pos + len <= bytes@.len(),
{
    let total: usize = bytes.len();
    let (key, key_end) = match read_text(bytes, pos + 14) {
        TextRead::Short => { return Decoded::Truncated; },
        TextRead::Wrong => { return Decoded::Malformed; },
        TextRead::Found { text, end } => (text, end),
    };
    let tail = tail_bytes();
    match expect_at(bytes, key_end, tail.as_slice()) {
        Expect::Short => Decoded::Truncated,
        Expect::Wrong => Decoded::Malformed,
        Expect::Found => Decoded::Record { cmd: Command::Del { key }, len: key_end + 2 - pos },
    }
}

/// Reads the record that starts in `bytes` at `pos`.  A position behind the
/// end of the input reads as a truncated record.
pub fn decode_at(bytes: &[u8], pos: usize) -> (r: Decoded)
    ensures
        pos <= bytes@.len() ==> r@ == parse_at(bytes@, pos as int),
        pos > bytes@.len() ==> r@ is Truncated,
        r matches Decoded::Record { len, .. } ==> 0 < len && pos + len <= bytes@.len(),
{
    if pos > bytes.len() {
        return Decoded::Truncated;
    }
    let put_head = put_head_bytes();
    match expect_at(bytes, pos, put_head.as_slice()) {
        Expect::Found => decode_put(bytes, pos),
        Expect::Short => Decoded::Truncated,
        Expect::Wrong => {
            let del_head = del_head_bytes();
            match expect_at(bytes, pos, del_head.as_slice()) {
                Expect::Found => decode_del(bytes, pos),
                Expect::Short => Decoded::Truncated,
                Expect::Wrong => Decoded::Malformed,
            }
        },
    }
}

/// Reads `bytes` as exactly one record.
pub fn decode_command(bytes: &[u8]) -> (r: Result<Command, KvsError>)
    ensures
        match r {
            Ok(cmd) => parse_at(bytes@, 0) == (Parse::Record { cmd: cmd@, len: bytes@.len() }),
            Err(e) => e is Decode && !(parse_at(bytes@, 0) matches Parse::Record { len, .. }
                && len == bytes@.len()),
        },
{
    match decode_at(bytes, 0) {
        Decoded::Record { cmd, len } => {
            if len == bytes.len() {
                Ok(cmd)
            } else {
                Err(KvsError::Decode)
            }
        },
        _ => Err(KvsError::Decode),
    }
}

/// Whether two strings are the same.
pub fn same_text(a: &String, b: &String) -> (r: bool)
    ensures
        r == (a@ == b@),
{
    *a == *b
}

/// Whether two commands are the same.
pub fn same_command(a: &Command, b: &Command) -> (r: bool)
    ensures
        r == (a@ == b@),
{
    match (a, b) {
        (Command::Put { key: k1, value: v1 }, Command::Put { key: k2, value: v2 }) => {
            same_text(k1, k2) && same_text(v1, v2)
        },
        (Command::Del { key: k1 }, Command::Del { key: k2 }) => same_text(k1, k2),
        _ => false,
    }
}

/// The record for `cmd`.  It is handed out only where reading it back gives
/// `cmd` again: `SerdeJson` where `serde_json` refuses a string of the
/// command, `InternalError` where the record does not read back.
pub fn encode_command(cmd: &Command) -> (r: Result<Vec<u8>, KvsError>)
    ensures
        match r {
            Ok(bytes) => encodable(cmd@) && record_bytes(cmd@) == Some(bytes@),
            Err(e) => !encodable(cmd@) && refused(cmd@, e),
        },
{
    let mut out: Vec<u8> = Vec::new();
    match cmd {
        Command::Put { key, value } => {
            let k = match string_to_json(key.as_str()) {
                Ok(k) => k,
                Err(text) => { return Err(KvsError::SerdeJson(text)); },
            };
            let v = match string_to_json(value.as_str()) {
                Ok(v) => v,
                Err(text) => { return Err(KvsError::SerdeJson(text)); },
            };
            out.extend_from_slice(put_head_bytes().as_slice());
            out.extend_from_slice(k.as_slice());
            out.extend_from_slice(value_head_bytes().as_slice());
            out.extend_from_slice(v.as_slice());
            out.extend_from_slice(tail_bytes().as_slice());
        },
        Command::Del { key } => {
            let k = match string_to_json(key.as_str()) {
                Ok(k) => k,
                Err(text) => { return Err(KvsError::SerdeJson(text)); },
            };
            out.extend_from_slice(del_head_bytes().as_slice());
            out.extend_from_slice(k.as_slice());
            out.extend_from_slice(tail_bytes().as_slice());
        },
    }
    assert(record_bytes(cmd@) == Some(out@)) by {
        match cmd {
            Command::Put { key, value } => {
                assert(out@ =~= put_head() + json_text(key@)->Ok_0 + value_head() + json_text(
                    value@,
                )->Ok_0 + tail());
            },
            Command::Del { key } => {
                assert(out@ =~= del_head() + json_text(key@)->Ok_0 + tail());
            },
        }
    }
    match decode_at(out.as_slice(), 0) {
        Decoded::Record { cmd: back, len } => {
            if len == out.len() && same_command(&back, cmd) {
                Ok(out)
            } else {
                Err(KvsError::InternalError)
            }
        },
        _ => Err(KvsError::InternalError),
    }
}

} // verus!
