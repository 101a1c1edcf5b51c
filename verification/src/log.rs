//! The log as mathematics: what the records of the segments say, taken in
//! the order in which they were written.

use vstd::prelude::*;
use crate::command::CommandView;
use crate::record::{encodable, parse_at, record_bytes, Parse};

verus! {

/// Where a record lies: the number of its segment, its first byte, and the
/// number of bytes that it takes.
#[derive(Clone, Copy, Debug, PartialEq, Eq, Structural)]
pub struct CommandPosition {
    /// The number of the segment.
    pub file_num: u64,
    /// The offset of the record's first byte in the segment.
    pub pos: u64,
    /// The number of bytes of the record.
    pub len: u64,
}

/// One record of the log: what it says and where it lies.
pub struct Entry {
    pub cmd: CommandView,
    pub at: CommandPosition,
}

/// Where the entries of a segment end.
pub open spec fn end_of(entries: Seq<Entry>) -> int {
    if entries.len() == 0 {
        0
    } else {
        entries.last().at.pos + entries.last().at.len
    }
}

/// Whether entry `i` lies in segment `num` right behind entry `i - 1`, and
/// the bytes of the segment hold its record there.
pub open spec fn placed(num: u64, bytes: Seq<u8>, entries: Seq<Entry>, i: int) -> bool {
    let e = entries[i];
    &&& e.at.file_num == num
    &&& e.at.pos == end_of(entries.take(i))
    &&& 0 < e.at.len
    &&& e.at.pos + e.at.len <= bytes.len()
    &&& parse_at(bytes, e.at.pos as int) == (Parse::Record { cmd: e.cmd, len: e.at.len as nat })
}

/// Whether `entries` are the records of a segment: they follow each other
/// from the first byte to the last, and each is what the bytes hold.
pub open spec fn tiles(num: u64, bytes: Seq<u8>, entries: Seq<Entry>) -> bool {
    &&& forall|i: int| 0 <= i < entries.len() ==> #[trigger] placed(num, bytes, entries, i)
    &&& end_of(entries) == bytes.len()
}

/// The last record about `key`, if that record sets the key.
pub open spec fn last_put(log: Seq<Entry>, key: Seq<char>) -> Option<Entry>
    decreases log.len(),
{
    if log.len() == 0 {
        None
    } else if log.last().cmd.key() == key {
        if log.last().cmd is Put {
            Some(log.last())
        } else {
            None
        }
    } else {
        last_put(log.drop_last(), key)
    }
}

/// Whether some record of the log is about `key`.
pub open spec fn mentions(log: Seq<Entry>, key: Seq<char>) -> bool {
    exists|i: int| 0 <= i < log.len() && (#[trigger] log[i]).cmd.key() == key
}

/// Whether the index says of `key` what the log says: the position of the
/// last record about it, if that record sets it, and nothing otherwise.
pub open spec fn agrees(index: Map<Seq<char>, CommandPosition>, log: Seq<Entry>, key: Seq<char>) -> bool {
    match last_put(log, key) {
        Some(e) => index.contains_key(key) && index[key] == e.at,
        None => !index.contains_key(key),
    }
}

/// Whether the index is the one that replaying the log gives.
pub open spec fn index_of(index: Map<Seq<char>, CommandPosition>, log: Seq<Entry>) -> bool {
    forall|key: Seq<char>| #[trigger] agrees(index, log, key)
}

/// The value that the log gives to `key`.
pub open spec fn value_of(log: Seq<Entry>, key: Seq<char>) -> Option<Seq<char>> {
    match last_put(log, key) {
        Some(e) => Some(e.cmd->value),
        None => None,
    }
}

/// The keys and values that the log holds.
pub open spec fn contents_of(log: Seq<Entry>) -> Map<Seq<char>, Seq<char>> {
    Map::new(|key: Seq<char>| value_of(log, key) is Some, |key: Seq<char>| value_of(log, key)->0)
}

/// Entries of a segment lie in the order of their positions.
pub proof fn lemma_tiles_ordered(num: u64, bytes: Seq<u8>, entries: Seq<Entry>, i: int, j: int)
    requires
        tiles(num, bytes, entries),
        0 <= i < j < entries.len(),
    ensures
        entries[i].at.pos + entries[i].at.len <= entries[j].at.pos,
    decreases j - i,
{
    assert(placed(num, bytes, entries, j));
    assert(entries.take(j).last() == entries[j - 1]);
    if i < j - 1 {
        lemma_tiles_ordered(num, bytes, entries, i, j - 1);
        assert(placed(num, bytes, entries, j - 1));
    }
}

/// A log that ends with a record about `key` says of `key` what that record says.
pub proof fn lemma_last_put_push(log: Seq<Entry>, e: Entry, key: Seq<char>)
    ensures
        last_put(log.push(e), key) == if e.cmd.key() == key {
            if e.cmd is Put {
                Some(e)
            } else {
                None
            }
        } else {
            last_put(log, key)
        },
{
    assert(log.push(e).drop_last() =~= log);
}

/// The keys and values after a change: a key has got a value, or a key has
/// lost its value.
pub open spec fn changed(contents: Map<Seq<char>, Seq<char>>, cmd: CommandView) -> Map<
    Seq<char>,
    Seq<char>,
> {
    match cmd {
        CommandView::Put { key, value } => contents.insert(key, value),
        CommandView::Del { key } => contents.remove(key),
    }
}

/// The index follows a record that is appended to the log.
pub proof fn lemma_index_push(index: Map<Seq<char>, CommandPosition>, log: Seq<Entry>, e: Entry)
    requires
        index_of(index, log),
    ensures
        e.cmd is Put ==> index_of(index.insert(e.cmd.key(), e.at), log.push(e)),
        e.cmd is Del ==> index_of(index.remove(e.cmd.key()), log.push(e)),
{
    let next = if e.cmd is Put {
        index.insert(e.cmd.key(), e.at)
    } else {
        index.remove(e.cmd.key())
    };
    assert forall|key: Seq<char>| #[trigger] agrees(next, log.push(e), key) by {
        lemma_last_put_push(log, e, key);
        assert(agrees(index, log, key));
    }
}

/// The keys and values follow a record that is appended to the log.
pub proof fn lemma_contents_push(log: Seq<Entry>, e: Entry)
    ensures
        contents_of(log.push(e)) == changed(contents_of(log), e.cmd),
{
    let after = contents_of(log.push(e));
    let expected = changed(contents_of(log), e.cmd);
    assert forall|key: Seq<char>| #[trigger]
        after.dom().contains(key) == expected.dom().contains(key) && (after.dom().contains(key)
            ==> after[key] == expected[key]) by {
        lemma_last_put_push(log, e, key);
    }
    assert(after =~= expected);
}

/// What a log says of `key` is decided by its later part, where that part
/// is about `key` at all, and by its earlier part otherwise.
pub proof fn lemma_last_put_concat(x: Seq<Entry>, y: Seq<Entry>, key: Seq<char>)
    ensures
        last_put(x + y, key) == if mentions(y, key) {
            last_put(y, key)
        } else {
            last_put(x, key)
        },
    decreases y.len(),
{
    if y.len() == 0 {
        assert(x + y =~= x);
    } else {
        assert((x + y).drop_last() =~= x + y.drop_last());
        assert((x + y).last() == y.last());
        if y.last().cmd.key() == key {
            assert(y[y.len() - 1].cmd.key() == key);
        } else {
            lemma_last_put_concat(x, y.drop_last(), key);
            if mentions(y, key) {
                let i = choose|i: int| 0 <= i < y.len() && (#[trigger] y[i]).cmd.key() == key;
                assert(y.drop_last()[i].cmd.key() == key);
            }
            if mentions(y.drop_last(), key) {
                let i = choose|i: int|
                    0 <= i < y.drop_last().len() && (#[trigger] y.drop_last()[i]).cmd.key() == key;
                assert(y[i].cmd.key() == key);
            }
        }
    }
}

/// The record that a log names for `key` is one of its records, sets `key`,
/// and no later record is about `key`.
pub proof fn lemma_last_put_is_entry(log: Seq<Entry>, key: Seq<char>) -> (i: int)
    requires
        last_put(log, key) is Some,
    ensures
        0 <= i < log.len(),
        log[i] == last_put(log, key)->0,
        log[i].cmd is Put,
        log[i].cmd.key() == key,
        forall|j: int| i < j < log.len() ==> (#[trigger] log[j]).cmd.key() != key,
    decreases log.len(),
{
    if log.last().cmd.key() == key {
        log.len() - 1
    } else {
        let i = lemma_last_put_is_entry(log.drop_last(), key);
        assert forall|j: int| i < j < log.len() implies (#[trigger] log[j]).cmd.key() != key by {
            if j < log.len() - 1 {
                assert(log.drop_last()[j] == log[j]);
            }
        }
        i
    }
}

/// A record that sets `key`, with no later record about `key`, is the one
/// that the log names for `key`.
pub proof fn lemma_last_put_at(log: Seq<Entry>, i: int, key: Seq<char>)
    requires
        0 <= i < log.len(),
        log[i].cmd is Put,
        log[i].cmd.key() == key,
        forall|j: int| i < j < log.len() ==> (#[trigger] log[j]).cmd.key() != key,
    ensures
        last_put(log, key) == Some(log[i]),
    decreases log.len(),
{
    if i < log.len() - 1 {
        assert(log[log.len() - 1].cmd.key() != key);
        assert forall|j: int| i < j < log.drop_last().len() implies (#[trigger] log.drop_last()[j]).cmd.key()
            != key by {
            assert(log[j].cmd.key() != key);
        }
        lemma_last_put_at(log.drop_last(), i, key);
    }
}

/// Whether a record is one that this library writes: its command can be
/// written again, and takes as many bytes then as the record takes.
pub open spec fn sound(e: Entry) -> bool {
    encodable(e.cmd) && e.at.len == record_bytes(e.cmd)->0.len()
}

/// Whether every record of the log is one that this library writes.
pub open spec fn all_sound(log: Seq<Entry>) -> bool {
    forall|i: int| 0 <= i < log.len() ==> sound(#[trigger] log[i])
}

/// A log of sound records stays one when a sound record is appended.
pub proof fn lemma_sound_push(log: Seq<Entry>, e: Entry)
    requires
        all_sound(log),
        sound(e),
    ensures
        all_sound(log.push(e)),
{
    assert forall|i: int| 0 <= i < log.push(e).len() implies sound(#[trigger] log.push(e)[i]) by {
        if i < log.len() {
            assert(log.push(e)[i] == log[i]);
        }
    }
}

} // verus!
