//! What holds of the store over any number of calls.

use vstd::prelude::*;
use crate::codec::{body, joined, line_of, split, tokens};
use crate::command::CommandView;
use crate::compaction::{lemma_log_file_num, lemma_segment_positions, live, squeezed};
use crate::file_store::{
    arrange, ascending, files_of, lemma_log_of_push, lemma_put_in, log_of, put_in, unread,
    FileStore, FileStoreView,
};
use crate::kvs::{lemma_index_entry, KvStore, KvStoreView};
use crate::log::{
    agrees, changed, contents_of, end_of, lemma_contents_push, lemma_last_put_is_entry, placed,
    sound, Entry,
};
use crate::names::{lemma_wal_name_injective, name_number, wal_name};
use crate::record::record_bytes;
use crate::replay::{lemma_loaded_readable, lemma_loaded_unique, loaded, read_from, replayed};
use crate::wal::SegmentView;

verus! {

/// The keys and values after a row of changes.
pub open spec fn history(contents: Map<Seq<char>, Seq<char>>, cmds: Seq<CommandView>) -> Map<
    Seq<char>,
    Seq<char>,
>
    decreases cmds.len(),
{
    if cmds.len() == 0 {
        contents
    } else {
        changed(history(contents, cmds.drop_last()), cmds.last())
    }
}

/// After `key` has been set to `value`, the key has that value for as long
/// as no change is about `key`, whatever else is set and removed.
pub proof fn law_read_your_write(
    contents: Map<Seq<char>, Seq<char>>,
    key: Seq<char>,
    value: Seq<char>,
    later: Seq<CommandView>,
)
    requires
        forall|i: int| 0 <= i < later.len() ==> (#[trigger] later[i]).key() != key,
    ensures
        history(contents.insert(key, value), later).contains_key(key),
        history(contents.insert(key, value), later)[key] == value,
    decreases later.len(),
{
    if later.len() > 0 {
        assert(later[later.len() - 1].key() != key);
        assert forall|i: int| 0 <= i < later.drop_last().len() implies (
        #[trigger] later.drop_last()[i]).key() != key by {
            assert(later[i].key() != key);
        }
        law_read_your_write(contents, key, value, later.drop_last());
    }
}

/// After `key` has been removed, the key has no value for as long as it is
/// not set again, whatever else is set and removed.
pub proof fn law_delete_invisible(
    contents: Map<Seq<char>, Seq<char>>,
    key: Seq<char>,
    later: Seq<CommandView>,
)
    requires
        forall|i: int|
            0 <= i < later.len() ==> !((#[trigger] later[i]) is Put && later[i].key() == key),
    ensures
        !history(contents.remove(key), later).contains_key(key),
    decreases later.len(),
{
    if later.len() > 0 {
        assert(!(later[later.len() - 1] is Put && later[later.len() - 1].key() == key));
        assert forall|i: int| 0 <= i < later.drop_last().len() implies !((
        #[trigger] later.drop_last()[i]) is Put && later.drop_last()[i].key() == key) by {
            assert(!(later[i] is Put && later[i].key() == key));
        }
        law_delete_invisible(contents, key, later.drop_last());
    }
}

/// The commands of the records of a log.
pub open spec fn commands_of(log: Seq<Entry>) -> Seq<CommandView> {
    Seq::new(log.len(), |i: int| log[i].cmd)
}

/// The keys and values of a store are what the commands of its log make of
/// an empty store, one after the other.
pub proof fn law_contents_follow_log(log: Seq<Entry>)
    ensures
        contents_of(log) == history(Map::empty(), commands_of(log)),
    decreases log.len(),
{
    if log.len() == 0 {
        assert(contents_of(log) =~= Map::<Seq<char>, Seq<char>>::empty());
    } else {
        let front = log.drop_last();
        law_contents_follow_log(front);
        assert(commands_of(log).drop_last() =~= commands_of(front));
        lemma_contents_push(front, log.last());
        assert(front.push(log.last()) =~= log);
    }
}

/// The segments without the records that were read from them.
pub open spec fn unread_all(segments: Seq<SegmentView>) -> Seq<SegmentView> {
    Seq::new(segments.len(), |i: int| unread(segments[i].num, segments[i].data))
}

/// The files of segments whose numbers grow hold those segments, in their order.
pub proof fn lemma_arrange_files(segments: Seq<SegmentView>)
    requires
        ascending(segments),
    ensures
        arrange(files_of(segments)) == unread_all(segments),
    decreases segments.len(),
{
    let files = files_of(segments);
    if segments.len() == 0 {
        assert(unread_all(segments) =~= Seq::empty());
    } else {
        let rest = segments.drop_first();
        assert forall|i: int, j: int| 0 <= i < j < rest.len() implies (#[trigger] rest[i]).num < (
        #[trigger] rest[j]).num by {
            assert(segments[i + 1].num < segments[j + 1].num);
        }
        lemma_arrange_files(rest);
        assert(files.drop_first() =~= files_of(rest));
        let num = segments[0].num;
        assert(files[0].0 == wal_name(num));
        lemma_wal_name_injective(num, name_number(wal_name(num))->0);
        let first = unread(num, segments[0].data);
        let list = unread_all(rest);
        assert forall|j: int| 0 <= j < list.len() implies (#[trigger] list[j]).num >= first.num by {
            assert(segments[0].num < segments[j + 1].num);
        }
        lemma_put_in(list, first, 0);
        assert(list.insert(0, first) =~= unread_all(segments));
    }
}

/// Closing a store and opening it again on the files that it left gives a
/// store with the same keys and values.
pub proof fn law_reopen(store: KvStoreView)
    requires
        store.wf(),
    ensures
        KvStore::can_open(files_of(store.files.segments)),
        KvStore::directory_log(files_of(store.files.segments)) == store.files.log(),
        KvStore::directory_contents(files_of(store.files.segments)) == store.contents(),
{
    let segments = store.files.segments;
    let raw = unread_all(segments);
    lemma_arrange_files(segments);
    assert(FileStore::opened(raw, 0).segments == raw);
    assert forall|s: int| 0 <= s < raw.len() implies read_from(
        raw[s],
        #[trigger] segments[s],
        s == raw.len() - 1,
    ) by {
        assert(segments[s].tiled());
        assert(segments[s].data.take(segments[s].data.len() as int) =~= segments[s].data);
    }
    assert(loaded(raw, segments));
    lemma_loaded_unique(raw, segments, replayed(raw));
    lemma_loaded_readable(raw, segments);
    assert forall|i: int, j: int| 0 <= i < j < raw.len() implies (#[trigger] raw[i]).num < (
    #[trigger] raw[j]).num by {
        assert(segments[i].num < segments[j].num);
    }
}

/// The number of bytes that the records of a log take.
pub open spec fn size_of(log: Seq<Entry>) -> nat
    decreases log.len(),
{
    if log.len() == 0 {
        0
    } else {
        size_of(log.drop_last()) + log.last().at.len as nat
    }
}

/// The number of bytes in the segments.
pub open spec fn bytes_in(segments: Seq<SegmentView>) -> nat
    decreases segments.len(),
{
    if segments.len() == 0 {
        0
    } else {
        bytes_in(segments.drop_last()) + segments.last().data.len()
    }
}

/// The number of bytes that the records take which hold the keys of
/// `keys` with their values.
pub open spec fn live_size(contents: Map<Seq<char>, Seq<char>>, keys: Seq<Seq<char>>) -> nat
    decreases keys.len(),
{
    if keys.len() == 0 {
        0
    } else {
        live_size(contents, keys.drop_last()) + record_bytes(
            CommandView::Put { key: keys.last(), value: contents[keys.last()] },
        )->0.len()
    }
}

/// The bytes of two logs in a row are the bytes of both.
pub proof fn lemma_size_of_concat(x: Seq<Entry>, y: Seq<Entry>)
    ensures
        size_of(x + y) == size_of(x) + size_of(y),
    decreases y.len(),
{
    if y.len() == 0 {
        assert(x + y =~= x);
    } else {
        assert((x + y).drop_last() =~= x + y.drop_last());
        lemma_size_of_concat(x, y.drop_last());
    }
}

/// The records of a segment take up to where they end.
pub proof fn lemma_size_of_entries(num: u64, bytes: Seq<u8>, entries: Seq<Entry>)
    requires
        forall|i: int| 0 <= i < entries.len() ==> #[trigger] placed(num, bytes, entries, i),
    ensures
        size_of(entries) == end_of(entries),
    decreases entries.len(),
{
    if entries.len() > 0 {
        let front = entries.drop_last();
        assert forall|i: int| 0 <= i < front.len() implies #[trigger] placed(num, bytes, front, i) by {
            assert(placed(num, bytes, entries, i));
            assert(front.take(i) =~= entries.take(i));
        }
        lemma_size_of_entries(num, bytes, front);
        assert(placed(num, bytes, entries, entries.len() - 1));
        assert(entries.take(entries.len() - 1) =~= front);
    }
}

/// Segments that hold whole records have as many bytes as their records take.
pub proof fn lemma_bytes_in(segments: Seq<SegmentView>)
    requires
        forall|s: int| 0 <= s < segments.len() ==> (#[trigger] segments[s]).tiled(),
    ensures
        bytes_in(segments) == size_of(log_of(segments)),
    decreases segments.len(),
{
    if segments.len() > 0 {
        let front = segments.drop_last();
        assert forall|s: int| 0 <= s < front.len() implies (#[trigger] front[s]).tiled() by {
            assert(segments[s].tiled());
        }
        lemma_bytes_in(front);
        let seg = segments[segments.len() - 1];
        assert(seg.tiled());
        lemma_size_of_entries(seg.num, seg.data, seg.entries);
        lemma_size_of_concat(log_of(front), seg.entries);
    }
}

/// Taking one key out of a list takes the bytes of its record out of the sum.
pub proof fn lemma_live_size_remove(contents: Map<Seq<char>, Seq<char>>, keys: Seq<Seq<char>>, p: int)
    requires
        0 <= p < keys.len(),
    ensures
        live_size(contents, keys) == live_size(contents, keys.remove(p)) + record_bytes(
            CommandView::Put { key: keys[p], value: contents[keys[p]] },
        )->0.len(),
    decreases keys.len(),
{
    if p == keys.len() - 1 {
        assert(keys.remove(p) =~= keys.drop_last());
    } else {
        lemma_live_size_remove(contents, keys.drop_last(), p);
        assert(keys.remove(p).drop_last() =~= keys.drop_last().remove(p));
        assert(keys.remove(p).last() == keys.last());
    }
}

/// Live records of different keys take no more bytes than the records of
/// any list of keys, each once, that holds their keys.
pub proof fn lemma_live_bound(
    contents: Map<Seq<char>, Seq<char>>,
    log: Seq<Entry>,
    keys: Seq<Seq<char>>,
)
    requires
        forall|i: int|
            0 <= i < log.len() ==> (#[trigger] log[i]).cmd == (CommandView::Put {
                key: log[i].cmd.key(),
                value: contents[log[i].cmd.key()],
            }) && log[i].at.len == record_bytes(log[i].cmd)->0.len(),
        forall|i: int, j: int|
            0 <= i < j < log.len() ==> (#[trigger] log[i]).cmd.key() != (#[trigger] log[j]).cmd.key(),
        forall|i: int, j: int| 0 <= i < j < keys.len() ==> #[trigger] keys[i] != #[trigger] keys[j],
        forall|i: int| 0 <= i < log.len() ==> keys.contains((#[trigger] log[i]).cmd.key()),
    ensures
        size_of(log) <= live_size(contents, keys),
    decreases log.len(),
{
    if log.len() > 0 {
        let e = log.last();
        let front = log.drop_last();
        assert(keys.contains(log[log.len() - 1].cmd.key()));
        let p = choose|p: int| 0 <= p < keys.len() && keys[p] == e.cmd.key();
        let others = keys.remove(p);
        lemma_live_size_remove(contents, keys, p);
        assert forall|i: int| 0 <= i < front.len() implies others.contains(
            (#[trigger] front[i]).cmd.key(),
        ) by {
            assert(keys.contains(log[i].cmd.key()));
            let q = choose|q: int| 0 <= q < keys.len() && keys[q] == log[i].cmd.key();
            assert(log[i].cmd.key() != log[log.len() - 1].cmd.key());
            let q1 = if q < p { q } else { q - 1 };
            assert(others[q1] == keys[q]);
        }
        assert forall|i: int, j: int| 0 <= i < j < others.len() implies #[trigger] others[i]
            != #[trigger] others[j] by {
            let i0 = if i < p { i } else { i + 1 };
            let j0 = if j < p { j } else { j + 1 };
            assert(keys[i0] != keys[j0]);
        }
        assert forall|i: int| 0 <= i < front.len() implies (#[trigger] front[i]).cmd == (
        CommandView::Put { key: front[i].cmd.key(), value: contents[front[i].cmd.key()] })
            && front[i].at.len == record_bytes(front[i].cmd)->0.len() by {
            assert(front[i] == log[i]);
        }
        assert forall|i: int, j: int| 0 <= i < j < front.len() implies (
        #[trigger] front[i]).cmd.key() != (#[trigger] front[j]).cmd.key() by {
            assert(log[i].cmd.key() != log[j].cmd.key());
        }
        lemma_live_bound(contents, front, others);
        assert(log[log.len() - 1].cmd == (CommandView::Put {
            key: e.cmd.key(),
            value: contents[e.cmd.key()],
        }));
    }
}

/// After a compaction, the segments that take no writes hold no more
/// bytes than the records of the live keys take: no more than the records
/// of any list of keys, each once, that holds every key with a value.
pub proof fn law_compaction_bound(store: KvStoreView, keys: Seq<Seq<char>>)
    requires
        store.wf(),
        squeezed(store.files, store.index),
        forall|i: int, j: int| 0 <= i < j < keys.len() ==> #[trigger] keys[i] != #[trigger] keys[j],
        forall|key: Seq<char>| #[trigger] store.contents().contains_key(key) ==> keys.contains(key),
    ensures
        bytes_in(store.files.segments.drop_last()) <= live_size(store.contents(), keys),
{
    let segments = store.files.segments;
    let fixed = segments.drop_last();
    let log = log_of(fixed);
    let contents = store.contents();
    assert forall|s: int| 0 <= s < fixed.len() implies (#[trigger] fixed[s]).tiled() by {
        assert(segments[s].tiled());
    }
    lemma_bytes_in(fixed);
    assert(segments =~= fixed.push(segments.last()));
    lemma_log_of_push(fixed, segments.last());
    assert forall|i: int| 0 <= i < log.len() implies (#[trigger] log[i]).cmd == (CommandView::Put {
        key: log[i].cmd.key(),
        value: contents[log[i].cmd.key()],
    }) && log[i].at.len == record_bytes(log[i].cmd)->0.len() && keys.contains(log[i].cmd.key()) by {
        let key = log[i].cmd.key();
        assert(live(store.index, log[i]));
        assert(store.files.log()[i] == log[i]);
        assert(sound(store.files.log()[i]));
        lemma_index_entry(store, key);
        let x = lemma_last_put_is_entry(store.files.log(), key);
        assert(agrees(store.index, store.files.log(), key));
        lemma_same_place(segments, x, i);
        assert(contents.contains_key(key));
    }
    assert forall|i: int, j: int| 0 <= i < j < log.len() implies (#[trigger] log[i]).cmd.key() != (
    #[trigger] log[j]).cmd.key() by {
        assert(live(store.index, log[i]));
        assert(live(store.index, log[j]));
        assert(store.files.log()[i] == log[i]);
        assert(store.files.log()[j] == log[j]);
        if log[i].cmd.key() == log[j].cmd.key() {
            lemma_same_place(segments, i, j);
        }
    }
    lemma_live_bound(contents, log, keys);
}

/// Records of the log lie at different places.
pub proof fn lemma_places_differ(segments: Seq<SegmentView>, i: int, j: int)
    requires
        ascending(segments),
        forall|s: int| 0 <= s < segments.len() ==> (#[trigger] segments[s]).tiled(),
        0 <= i < j < log_of(segments).len(),
    ensures
        log_of(segments)[i].at != log_of(segments)[j].at,
    decreases segments.len(),
{
    let front = segments.drop_last();
    let seg = segments.last();
    let before = log_of(front);
    assert forall|s: int| 0 <= s < front.len() implies (#[trigger] front[s]).tiled() by {
        assert(segments[s].tiled());
    }
    assert forall|a: int, b: int| 0 <= a < b < front.len() implies (#[trigger] front[a]).num < (
    #[trigger] front[b]).num by {
        assert(segments[a].num < segments[b].num);
    }
    if j < before.len() {
        lemma_places_differ(front, i, j);
    } else {
        assert(segments[segments.len() - 1].tiled());
        assert(placed(seg.num, seg.data, seg.entries, j - before.len()));
        if i < before.len() {
            let s = lemma_log_file_num(front, i);
            assert(segments[s].num < segments[segments.len() - 1].num);
        } else {
            lemma_segment_positions(seg);
            assert(seg.entries[i - before.len()].at != seg.entries[j - before.len()].at);
        }
    }
}

/// Two records of the log that lie at the same place are the same record.
pub proof fn lemma_same_place(segments: Seq<SegmentView>, i: int, j: int)
    requires
        ascending(segments),
        forall|s: int| 0 <= s < segments.len() ==> (#[trigger] segments[s]).tiled(),
        0 <= i < log_of(segments).len(),
        0 <= j < log_of(segments).len(),
        log_of(segments)[i].at == log_of(segments)[j].at,
    ensures
        i == j,
{
    if i < j {
        lemma_places_differ(segments, i, j);
    } else if j < i {
        lemma_places_differ(segments, j, i);
    }
}

/// No record starts at or behind the size at which a segment stops taking
/// writes, unless it is the first of its segment: the segment that takes a
/// record is at most that size and the record long.  Only the segment with
/// the last number that there is goes on taking records.
pub proof fn law_rollover(files: FileStoreView, cmd: CommandView)
    requires
        files.tiled(),
        files.accepts(cmd),
    ensures
        ({
            let at = files.ready().next_position(record_bytes(cmd)->0.len());
            let after = files.written(cmd);
            &&& at.pos < files.threshold || at.pos == 0 || at.file_num == u64::MAX
            &&& at.file_num < u64::MAX ==> after.active().data.len() == at.pos + record_bytes(
                cmd,
            )->0.len()
            &&& after.active().data.len() < files.threshold + record_bytes(cmd)->0.len()
                || after.active().data.len() == record_bytes(cmd)->0.len() || after.active().num
                == u64::MAX
        }),
{
    let ready = files.ready();
    let after = files.written(cmd);
    assert(after.active().num == ready.active().num);
    assert(after.active().data.len() == ready.active().data.len() + record_bytes(cmd)->0.len());
    if files.rolls() {
        assert(ready.active().data.len() == 0);
    } else if files.is_full() {
        assert(ready.active().num == u64::MAX);
    } else {
        assert(ready.active().data.len() < files.threshold);
    }
}

/// Where every record starts within the size at which a segment stops
/// taking writes, no segment is longer than that size and its last record.
pub proof fn law_segment_size(files: FileStoreView, s: int)
    requires
        files.tiled(),
        files.within(),
        0 <= s < files.segments.len(),
        files.segments[s].entries.len() > 0,
        files.segments[s].num < u64::MAX,
    ensures
        files.segments[s].data.len() < files.threshold + files.segments[s].entries.last().at.len
            || files.segments[s].data.len() == files.segments[s].entries.last().at.len,
{
    let seg = files.segments[s];
    crate::compaction::lemma_log_split(files.segments, s);
    let done = log_of(files.segments.take(s));
    let last = seg.entries.len() - 1;
    assert(files.log()[done.len() + last] == seg.entries[last]);
    assert(seg.tiled());
    assert(placed(seg.num, seg.data, seg.entries, last));
}

/// After a compaction all segments together hold no more bytes than the
/// records of the live keys take, and the size at which a segment stops
/// taking writes, and the last record of the active segment: a bound that
/// does not grow with the number of changes.
pub proof fn law_total_size(store: KvStoreView, keys: Seq<Seq<char>>)
    requires
        store.wf(),
        squeezed(store.files, store.index),
        store.files.within(),
        store.files.active().num < u64::MAX,
        forall|i: int, j: int| 0 <= i < j < keys.len() ==> #[trigger] keys[i] != #[trigger] keys[j],
        forall|key: Seq<char>| #[trigger] store.contents().contains_key(key) ==> keys.contains(key),
    ensures
        bytes_in(store.files.segments) <= live_size(store.contents(), keys) + store.files.threshold
            + if store.files.active().entries.len() > 0 {
            store.files.active().entries.last().at.len as int
        } else {
            0
        },
{
    law_compaction_bound(store, keys);
    let last = store.files.segments.len() - 1;
    let active = store.files.segments[last];
    assert(active.tiled());
    if active.entries.len() > 0 {
        law_segment_size(store.files, last);
    }
}

/// Whether a message can be sent: every token has a character, and none
/// has a space.
pub open spec fn sendable(msg: Seq<Seq<char>>) -> bool {
    forall|i: int|
        0 <= i < msg.len() ==> (#[trigger] msg[i]).len() > 0 && !msg[i].contains(' ')
}

/// A token that is read behind complete tokens stays open.
pub proof fn lemma_split_token(s: Seq<char>, token: Seq<char>)
    requires
        split(s).1.len() == 0,
        !token.contains(' '),
    ensures
        split(s + token) == (split(s).0, token),
    decreases token.len(),
{
    if token.len() == 0 {
        assert(s + token =~= s);
        assert(split(s).1 =~= token);
    } else {
        let front = token.drop_last();
        assert(!front.contains(' ')) by {
            if front.contains(' ') {
                let i = choose|i: int| 0 <= i < front.len() && front[i] == ' ';
                assert(token[i] == ' ');
            }
        }
        lemma_split_token(s, front);
        assert((s + token).drop_last() =~= s + front);
        assert(token[token.len() - 1] != ' ');
        assert(front.push(token.last()) =~= token);
    }
}

/// Reading the tokens that were written gives all of them, and none is open.
pub proof fn lemma_split_joined(msg: Seq<Seq<char>>)
    requires
        sendable(msg),
    ensures
        split(joined(msg)) == (msg, Seq::<char>::empty()),
    decreases msg.len(),
{
    if msg.len() > 0 {
        let front = msg.drop_last();
        let token = msg.last();
        assert forall|i: int| 0 <= i < front.len() implies (#[trigger] front[i]).len() > 0
            && !front[i].contains(' ') by {
            assert(msg[i].len() > 0);
        }
        lemma_split_joined(front);
        assert(msg[msg.len() - 1].len() > 0);
        lemma_split_token(joined(front), token);
        let text = joined(msg);
        assert(text =~= (joined(front) + token).push(' '));
        assert(text.drop_last() =~= joined(front) + token);
        assert(front.push(token) =~= msg);
    }
}

/// The tokens that `decode` reads from the line that `encode` wrote are the
/// tokens that were written, where each has a character and none has a space.
pub proof fn law_codec_round_trip(msg: Seq<Seq<char>>)
    requires
        sendable(msg),
    ensures
        tokens(body(line_of(msg))) == msg,
{
    lemma_split_joined(msg);
    assert(line_of(msg).drop_last() =~= joined(msg));
}

/// The tokens that are complete have a character each and no space, and
/// the open token has no space.
pub proof fn lemma_split_clean(s: Seq<char>)
    ensures
        sendable(split(s).0),
        !split(s).1.contains(' '),
    decreases s.len(),
{
    if s.len() > 0 {
        lemma_split_clean(s.drop_last());
        let (done, open) = split(s.drop_last());
        if s.last() != ' ' {
            let next = open.push(s.last());
            if next.contains(' ') {
                let i = choose|i: int| 0 <= i < next.len() && next[i] == ' ';
                assert(open[i] == ' ');
            }
        } else if open.len() > 0 {
            let next = done.push(open);
            assert forall|i: int| 0 <= i < next.len() implies (#[trigger] next[i]).len() > 0
                && !next[i].contains(' ') by {
                if i < done.len() {
                    assert(done[i].len() > 0);
                }
            }
        }
    }
}

/// Every token that `decode` reads has a character, and none has a space.
pub proof fn law_tokens_clean(line: Seq<char>)
    ensures
        sendable(tokens(body(line))),
{
    let s = body(line);
    lemma_split_clean(s);
    let (done, open) = split(s);
    if open.len() > 0 {
        let all = done.push(open);
        assert forall|i: int| 0 <= i < all.len() implies (#[trigger] all[i]).len() > 0
            && !all[i].contains(' ') by {
            if i < done.len() {
                assert(done[i].len() > 0);
            }
        }
    }
}

/// Whether the numbers of the segments do not fall.
pub open spec fn sorted(segments: Seq<SegmentView>) -> bool {
    forall|i: int, j: int|
        0 <= i < j < segments.len() ==> (#[trigger] segments[i]).num <= (#[trigger] segments[j]).num
}

/// A segment that is put into a sorted list leaves it sorted, and the
/// list holds the segment and what it held before, nothing else.
pub proof fn lemma_put_in_sorted(list: Seq<SegmentView>, seg: SegmentView)
    requires
        sorted(list),
    ensures
        sorted(put_in(list, seg)),
        put_in(list, seg).len() == list.len() + 1,
        put_in(list, seg).contains(seg),
        forall|i: int| 0 <= i < list.len() ==> put_in(list, seg).contains(#[trigger] list[i]),
        forall|i: int|
            0 <= i < put_in(list, seg).len() ==> (#[trigger] put_in(list, seg)[i]) == seg
                || list.contains(put_in(list, seg)[i]),
    decreases list.len(),
{
    let result = put_in(list, seg);
    if list.len() == 0 || list.last().num < seg.num {
        assert(result[list.len() as int] == seg);
        assert forall|i: int, j: int| 0 <= i < j < result.len() implies (#[trigger] result[i]).num
            <= (#[trigger] result[j]).num by {
            if j < list.len() {
                assert(list[i].num <= list[j].num);
            } else if list.len() > 0 {
                assert(list[i].num <= list[list.len() - 1].num);
            }
        }
        assert forall|i: int| 0 <= i < list.len() implies result.contains(#[trigger] list[i]) by {
            assert(result[i] == list[i]);
        }
        assert forall|i: int| 0 <= i < result.len() implies (#[trigger] result[i]) == seg
            || list.contains(result[i]) by {
            if i < list.len() {
                assert(list[i] == result[i]);
            }
        }
    } else {
        let front = list.drop_last();
        assert forall|i: int, j: int| 0 <= i < j < front.len() implies (#[trigger] front[i]).num <= (
        #[trigger] front[j]).num by {
            assert(list[i].num <= list[j].num);
        }
        lemma_put_in_sorted(front, seg);
        let inner = put_in(front, seg);
        assert(result == inner.push(list.last()));
        assert forall|i: int, j: int| 0 <= i < j < result.len() implies (#[trigger] result[i]).num
            <= (#[trigger] result[j]).num by {
            if j < inner.len() {
                assert(inner[i].num <= inner[j].num);
            } else {
                assert(inner[i] == seg || front.contains(inner[i]));
                if inner[i] != seg {
                    let x = choose|x: int| 0 <= x < front.len() && front[x] == inner[i];
                    assert(list[x].num <= list[list.len() - 1].num);
                }
            }
        }
        let x = choose|x: int| 0 <= x < inner.len() && inner[x] == seg;
        assert(result[x] == seg);
        assert forall|i: int| 0 <= i < list.len() implies result.contains(#[trigger] list[i]) by {
            if i < front.len() {
                assert(inner.contains(front[i]));
                let y = choose|y: int| 0 <= y < inner.len() && inner[y] == front[i];
                assert(result[y] == list[i]);
            } else {
                assert(result[inner.len() as int] == list[i]);
            }
        }
        assert forall|i: int| 0 <= i < result.len() implies (#[trigger] result[i]) == seg
            || list.contains(result[i]) by {
            if i < inner.len() {
                assert(inner[i] == seg || front.contains(inner[i]));
                if inner[i] != seg {
                    let y = choose|y: int| 0 <= y < front.len() && front[y] == inner[i];
                    assert(list[y] == result[i]);
                }
            } else {
                assert(list[list.len() - 1] == result[i]);
            }
        }
    }
}

/// Whether `seg` is what one of the files holds that have the name of a
/// segment file.
pub open spec fn held_by(files: Seq<(Seq<char>, Seq<u8>)>, seg: SegmentView) -> bool {
    exists|i: int|
        0 <= i < files.len() && name_number((#[trigger] files[i]).0) is Some && seg == unread(
            name_number(files[i].0)->0,
            files[i].1,
        )
}

/// The segments of a directory are sorted by their numbers, and they are
/// the files of the directory that have the name of a segment file: each
/// of those files is among them, and nothing else.
pub proof fn law_arrange(files: Seq<(Seq<char>, Seq<u8>)>)
    ensures
        sorted(arrange(files)),
        forall|i: int|
            0 <= i < files.len() && name_number((#[trigger] files[i]).0) is Some ==> arrange(
                files,
            ).contains(unread(name_number(files[i].0)->0, files[i].1)),
        forall|j: int| 0 <= j < arrange(files).len() ==> held_by(files, #[trigger] arrange(files)[j]),
    decreases files.len(),
{
    if files.len() > 0 {
        let later = files.drop_first();
        law_arrange(later);
        let rest = arrange(later);
        let result = arrange(files);
        if name_number(files[0].0) is Some {
            let seg = unread(name_number(files[0].0)->0, files[0].1);
            lemma_put_in_sorted(rest, seg);
        }
        assert forall|i: int|
            0 <= i < files.len() && name_number((#[trigger] files[i]).0) is Some implies result.contains(
            unread(name_number(files[i].0)->0, files[i].1),
        ) by {
            if i > 0 {
                assert(later[i - 1] == files[i]);
                let seg = unread(name_number(files[i].0)->0, files[i].1);
                assert(rest.contains(seg));
                if name_number(files[0].0) is Some {
                    let x = choose|x: int| 0 <= x < rest.len() && rest[x] == seg;
                    assert(result.contains(rest[x]));
                }
            }
        }
        assert forall|j: int| 0 <= j < result.len() implies held_by(files, #[trigger] result[j]) by {
            let first = name_number(files[0].0) is Some && result[j] == unread(
                name_number(files[0].0)->0,
                files[0].1,
            );
            if first {
                assert(name_number(files[0].0) is Some);
            } else {
                assert(rest.contains(result[j]));
                let y = choose|y: int| 0 <= y < rest.len() && rest[y] == result[j];
                assert(held_by(later, rest[y]));
                let i = choose|i: int|
                    0 <= i < later.len() && name_number((#[trigger] later[i]).0) is Some && rest[y]
                        == unread(name_number(later[i].0)->0, later[i].1);
                assert(later[i] == files[i + 1]);
                assert(name_number(files[i + 1].0) is Some);
            }
        }
    }
}

} // verus!
