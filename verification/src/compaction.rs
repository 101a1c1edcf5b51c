//! Compaction: a segment is written again with its live records only.
//!
//! A record is live where the index names it.  This module says what a
//! segment is after compaction, writes it, and proves that the log says the
//! same of every key after the other records have been dropped.

use vstd::hash_map::StringHashMap;
use vstd::prelude::*;
use crate::command::CommandView;
use crate::file_store::{
    ascending, lemma_log_entry, lemma_log_of_concat, lemma_log_of_push, log_of, starts_within,
    DiskOpView, FileStoreView,
};
use crate::log::{
    agrees, all_sound, contents_of, end_of, index_of, last_put, lemma_last_put_at,
    lemma_last_put_concat, lemma_last_put_is_entry, lemma_tiles_ordered, mentions, placed, sound,
    value_of, CommandPosition, Entry,
};
use crate::record::{encode_command, record_bytes};
use crate::wal::{entries_of, Segment, SegmentView};

verus! {

/// Whether the index names this record: the record is the live one of its key.
pub open spec fn live(index: Map<Seq<char>, CommandPosition>, e: Entry) -> bool {
    index.contains_key(e.cmd.key()) && index[e.cmd.key()] == e.at
}

/// Whether the index names every one of these records.
pub open spec fn all_live(index: Map<Seq<char>, CommandPosition>, log: Seq<Entry>) -> bool {
    forall|i: int| 0 <= i < log.len() ==> live(index, #[trigger] log[i])
}

/// The commands of the live records, in the order of the records.
pub open spec fn survivors(entries: Seq<Entry>, index: Map<Seq<char>, CommandPosition>) -> Seq<
    CommandView,
>
    decreases entries.len(),
{
    if entries.len() == 0 {
        Seq::empty()
    } else {
        let front = survivors(entries.drop_last(), index);
        if live(index, entries.last()) {
            front.push(entries.last().cmd)
        } else {
            front
        }
    }
}

/// The segment with the number `num` that holds the records of the
/// commands, one behind the other.
pub open spec fn packed(num: u64, cmds: Seq<CommandView>) -> SegmentView
    decreases cmds.len(),
{
    if cmds.len() == 0 {
        SegmentView { num, data: Seq::empty(), entries: Seq::empty() }
    } else {
        let front = packed(num, cmds.drop_last());
        let record = record_bytes(cmds.last())->0;
        SegmentView {
            num,
            data: front.data + record,
            entries: front.entries.push(
                Entry {
                    cmd: cmds.last(),
                    at: CommandPosition {
                        file_num: num,
                        pos: front.data.len() as u64,
                        len: record.len() as u64,
                    },
                },
            ),
        }
    }
}

/// The segment after compaction: it holds the records of the commands of
/// its live records, written again.
pub open spec fn squeeze(seg: SegmentView, index: Map<Seq<char>, CommandPosition>) -> SegmentView {
    packed(seg.num, survivors(seg.entries, index))
}

/// The segments after compaction: each holds its live records, and those
/// without live records are gone.
pub open spec fn squeeze_all(segments: Seq<SegmentView>, index: Map<Seq<char>, CommandPosition>) -> Seq<
    SegmentView,
>
    decreases segments.len(),
{
    if segments.len() == 0 {
        Seq::empty()
    } else {
        let front = squeeze_all(segments.drop_last(), index);
        let seg = squeeze(segments.last(), index);
        if seg.entries.len() > 0 {
            front.push(seg)
        } else {
            front
        }
    }
}

/// The changes to the files that compaction makes: each segment is
/// replaced by what is left of it, or removed where nothing is left.
pub open spec fn squeeze_ops(segments: Seq<SegmentView>, index: Map<Seq<char>, CommandPosition>) -> Seq<
    DiskOpView,
>
    decreases segments.len(),
{
    if segments.len() == 0 {
        Seq::empty()
    } else {
        let front = squeeze_ops(segments.drop_last(), index);
        let seg = squeeze(segments.last(), index);
        if seg.entries.len() > 0 {
            front.push(DiskOpView::Replace { file_num: seg.num, data: seg.data })
        } else {
            front.push(DiskOpView::Remove { file_num: seg.num })
        }
    }
}

/// The segments of a store after compaction: all but the active one are
/// compacted, and the active one is as it was.
pub open spec fn compacted(segments: Seq<SegmentView>, index: Map<Seq<char>, CommandPosition>) -> Seq<
    SegmentView,
> {
    squeeze_all(segments.drop_last(), index).push(segments.last())
}

/// The index that replaying a log gives.
pub open spec fn replay_index(log: Seq<Entry>) -> Map<Seq<char>, CommandPosition> {
    Map::new(|key: Seq<char>| last_put(log, key) is Some, |key: Seq<char>| last_put(log, key)->0.at)
}

/// The index of a log is the one that replaying the log gives.
pub proof fn lemma_replay_index(index: Map<Seq<char>, CommandPosition>, log: Seq<Entry>)
    requires
        index_of(index, log),
    ensures
        index == replay_index(log),
{
    let other = replay_index(log);
    assert forall|key: Seq<char>| #[trigger]
        index.dom().contains(key) == other.dom().contains(key) && (index.dom().contains(key)
            ==> index[key] == other[key]) by {
        assert(agrees(index, log, key));
    }
    assert(index =~= other);
}

/// Two indexes that name the same records of a segment leave the same
/// records of it alive.
pub proof fn lemma_survivors_same(
    entries: Seq<Entry>,
    a: Map<Seq<char>, CommandPosition>,
    b: Map<Seq<char>, CommandPosition>,
)
    requires
        forall|j: int| 0 <= j < entries.len() ==> live(a, #[trigger] entries[j]) == live(b, entries[j]),
    ensures
        survivors(entries, a) == survivors(entries, b),
    decreases entries.len(),
{
    if entries.len() > 0 {
        let front = entries.drop_last();
        assert forall|j: int| 0 <= j < front.len() implies live(a, #[trigger] front[j]) == live(
            b,
            front[j],
        ) by {
            assert(front[j] == entries[j]);
        }
        lemma_survivors_same(front, a, b);
        assert(live(a, entries[entries.len() - 1]) == live(b, entries[entries.len() - 1]));
    }
}

/// Moving the index to the live records of one segment changes nothing
/// about the records of other segments: those that were live stay live,
/// and the others stay dead.
pub proof fn lemma_moves_spare(
    index: Map<Seq<char>, CommandPosition>,
    after: Map<Seq<char>, CommandPosition>,
    old: Seq<Entry>,
    kept: Seq<Entry>,
    src: Seq<int>,
    num: u64,
    e: Entry,
)
    requires
        forall|i: int| 0 <= i < old.len() ==> (#[trigger] old[i]).at.file_num == num,
        forall|t: int| 0 <= t < kept.len() ==> (#[trigger] kept[t]).at.file_num == num,
        keeps_live(index, old, kept, src, old.len() as int),
        moved_to(index, after, kept),
        e.at.file_num != num,
    ensures
        live(after, e) == live(index, e),
{
    let key = e.cmd.key();
    if mentions(kept, key) {
        let t = choose|t: int| 0 <= t < kept.len() && (#[trigger] kept[t]).cmd.key() == key;
        assert(live(after, kept[t]));
        assert(live(index, old[src[t]]));
        assert(old[src[t]].cmd.key() == key);
    } else {
        assert(after.contains_key(key) == index.contains_key(key));
    }
}

/// Whether `kept` holds the live records of `old`, in their order: record
/// `t` of `kept` has the command of record `src[t]` of `old`.
pub open spec fn keeps_live(
    index: Map<Seq<char>, CommandPosition>,
    old: Seq<Entry>,
    kept: Seq<Entry>,
    src: Seq<int>,
    upto: int,
) -> bool {
    &&& src.len() == kept.len()
    &&& forall|t: int|
        0 <= t < src.len() ==> 0 <= (#[trigger] src[t]) < upto && live(index, old[src[t]])
            && kept[t].cmd == old[src[t]].cmd
    &&& forall|t: int, u: int| 0 <= t < u < src.len() ==> (#[trigger] src[t]) < (#[trigger] src[u])
    &&& forall|p: int|
        0 <= p < upto && live(index, #[trigger] old[p]) ==> exists|t: int|
            0 <= t < src.len() && #[trigger] src[t] == p
}

/// Whether `after` is `before` with the index moved to the records of `kept`:
/// each of them is named, and nothing else has changed.
pub open spec fn moved_to(
    before: Map<Seq<char>, CommandPosition>,
    after: Map<Seq<char>, CommandPosition>,
    kept: Seq<Entry>,
) -> bool {
    &&& all_live(after, kept)
    &&& forall|key: Seq<char>|
        !mentions(kept, key) ==> (#[trigger] after.contains_key(key)) == before.contains_key(key)
            && (after.contains_key(key) ==> after[key] == before[key])
}

/// One step of compaction.  The log consists of the records `done` of the
/// segments that are compacted already, the records `old` of one segment,
/// and the records `rest` of the later segments.  Replacing `old` by its
/// live records `kept`, and moving the index to them, leaves the index the
/// one of the log, and leaves every key its value.
pub proof fn lemma_compact_step(
    index: Map<Seq<char>, CommandPosition>,
    after: Map<Seq<char>, CommandPosition>,
    done: Seq<Entry>,
    old: Seq<Entry>,
    rest: Seq<Entry>,
    kept: Seq<Entry>,
    src: Seq<int>,
    num: u64,
)
    requires
        index_of(index, done + old + rest),
        all_live(index, done),
        forall|i: int| 0 <= i < done.len() ==> (#[trigger] done[i]).at.file_num != num,
        forall|i: int| 0 <= i < rest.len() ==> (#[trigger] rest[i]).at.file_num != num,
        forall|i: int| 0 <= i < old.len() ==> (#[trigger] old[i]).at.file_num == num,
        forall|i: int, j: int|
            0 <= i < j < old.len() ==> (#[trigger] old[i]).at != (#[trigger] old[j]).at,
        keeps_live(index, old, kept, src, old.len() as int),
        moved_to(index, after, kept),
    ensures
        index_of(after, done + kept + rest),
        all_live(after, done + kept),
        contents_of(done + kept + rest) == contents_of(done + old + rest),
{
    let log = done + old + rest;
    let next = done + kept + rest;
    assert forall|key: Seq<char>| #[trigger]
        agrees(after, next, key) && value_of(next, key) == value_of(log, key) by {
        lemma_compact_key(index, after, done, old, rest, kept, src, num, key);
    }
    assert forall|key: Seq<char>| #[trigger]
        contents_of(next).dom().contains(key) == contents_of(log).dom().contains(key) && (
        contents_of(next).dom().contains(key) ==> contents_of(next)[key] == contents_of(log)[key]) by {
        assert(agrees(after, next, key) && value_of(next, key) == value_of(log, key));
    }
    assert(contents_of(next) =~= contents_of(log));
    assert forall|i: int| 0 <= i < (done + kept).len() implies live(
        after,
        #[trigger] (done + kept)[i],
    ) by {
        if i < done.len() {
            let a = done[i];
            assert(live(index, a));
            if mentions(kept, a.cmd.key()) {
                let t = choose|t: int| 0 <= t < kept.len() && (#[trigger] kept[t]).cmd.key() == a.cmd.key();
                assert(live(index, old[src[t]]));
            }
            assert(after.contains_key(a.cmd.key()));
        } else {
            assert(live(after, kept[i - done.len()]));
        }
    }
}

/// What `lemma_compact_step` says, for one key.
pub proof fn lemma_compact_key(
    index: Map<Seq<char>, CommandPosition>,
    after: Map<Seq<char>, CommandPosition>,
    done: Seq<Entry>,
    old: Seq<Entry>,
    rest: Seq<Entry>,
    kept: Seq<Entry>,
    src: Seq<int>,
    num: u64,
    key: Seq<char>,
)
    requires
        index_of(index, done + old + rest),
        all_live(index, done),
        forall|i: int| 0 <= i < done.len() ==> (#[trigger] done[i]).at.file_num != num,
        forall|i: int| 0 <= i < rest.len() ==> (#[trigger] rest[i]).at.file_num != num,
        forall|i: int| 0 <= i < old.len() ==> (#[trigger] old[i]).at.file_num == num,
        forall|i: int, j: int|
            0 <= i < j < old.len() ==> (#[trigger] old[i]).at != (#[trigger] old[j]).at,
        keeps_live(index, old, kept, src, old.len() as int),
        moved_to(index, after, kept),
    ensures
        agrees(after, done + kept + rest, key),
        value_of(done + kept + rest, key) == value_of(done + old + rest, key),
{
    let log = done + old + rest;
    let next = done + kept + rest;
    assert(agrees(index, log, key));
    lemma_last_put_concat(done + old, rest, key);
    lemma_last_put_concat(done, old, key);
    lemma_last_put_concat(done + kept, rest, key);
    lemma_last_put_concat(done, kept, key);
    // A record of `kept` about the key comes from a live record of `old` about it.
    if mentions(kept, key) {
        let t = choose|t: int| 0 <= t < kept.len() && (#[trigger] kept[t]).cmd.key() == key;
        assert(live(index, old[src[t]]));
        assert(old[src[t]].cmd.key() == key);
        assert(mentions(old, key));
        assert(index[key].file_num == num);
    }
    if mentions(rest, key) {
        if last_put(rest, key) is Some {
            let i = lemma_last_put_is_entry(rest, key);
            assert(rest[i].at.file_num != num);
        }
        assert(!mentions(kept, key));
        assert(after.contains_key(key) == index.contains_key(key));
        assert(agrees(after, next, key));
    } else if mentions(old, key) {
        if last_put(old, key) is Some {
            let p = lemma_last_put_is_entry(old, key);
            assert(live(index, old[p]));
            let t = choose|t: int| 0 <= t < src.len() && #[trigger] src[t] == p;
            assert forall|u: int| t < u < kept.len() implies (#[trigger] kept[u]).cmd.key() != key by {
                assert(src[t] < src[u]);
                assert(old[src[u]].cmd.key() != key);
            }
            lemma_last_put_at(kept, t, key);
            assert(kept[t].cmd.key() == key);
            assert(live(after, kept[t]));
            assert(agrees(after, next, key));
        } else {
            assert(!mentions(kept, key));
            if last_put(done, key) is Some {
                let i = lemma_last_put_is_entry(done, key);
                assert(live(index, done[i]));
            }
            assert(after.contains_key(key) == index.contains_key(key));
            assert(agrees(after, next, key));
        }
    } else {
        assert(!mentions(kept, key));
        assert(after.contains_key(key) == index.contains_key(key));
        assert(agrees(after, next, key));
    }
}

/// The live records of a segment are about different keys.
pub proof fn lemma_kept_distinct(
    index: Map<Seq<char>, CommandPosition>,
    old: Seq<Entry>,
    kept: Seq<Entry>,
    src: Seq<int>,
    t: int,
    u: int,
)
    requires
        forall|i: int, j: int|
            0 <= i < j < old.len() ==> (#[trigger] old[i]).at != (#[trigger] old[j]).at,
        keeps_live(index, old, kept, src, old.len() as int),
        0 <= t < u < kept.len(),
    ensures
        kept[t].cmd.key() != kept[u].cmd.key(),
{
    assert(src[t] < src[u]);
    assert(live(index, old[src[t]]));
    assert(live(index, old[src[u]]));
    assert(old[src[t]].at != old[src[u]].at);
}

/// The records of a segment lie at different places.
pub proof fn lemma_segment_positions(seg: SegmentView)
    requires
        seg.tiled(),
    ensures
        forall|x: int, y: int|
            0 <= x < y < seg.entries.len() ==> (#[trigger] seg.entries[x]).at != (
            #[trigger] seg.entries[y]).at,
{
    assert forall|x: int, y: int| 0 <= x < y < seg.entries.len() implies (
    #[trigger] seg.entries[x]).at != (#[trigger] seg.entries[y]).at by {
        lemma_tiles_ordered(seg.num, seg.data, seg.entries, x, y);
        assert(placed(seg.num, seg.data, seg.entries, x));
    }
}

/// The log is the log of the segments before segment `i`, followed by the
/// records of segment `i` and the log of the segments behind it.
pub proof fn lemma_log_split(segments: Seq<SegmentView>, i: int)
    requires
        0 <= i < segments.len(),
    ensures
        log_of(segments) == log_of(segments.take(i)) + segments[i].entries + log_of(
            segments.skip(i + 1),
        ),
{
    let front = segments.take(i).push(segments[i]);
    assert(segments =~= front + segments.skip(i + 1));
    lemma_log_of_concat(front, segments.skip(i + 1));
    lemma_log_of_push(segments.take(i), segments[i]);
}

/// Every record of the log carries the number of one of the segments.
pub proof fn lemma_log_file_num(segments: Seq<SegmentView>, i: int) -> (s: int)
    requires
        forall|s: int| 0 <= s < segments.len() ==> (#[trigger] segments[s]).tiled(),
        0 <= i < log_of(segments).len(),
    ensures
        0 <= s < segments.len(),
        log_of(segments)[i].at.file_num == segments[s].num,
{
    let (s, j) = lemma_log_entry(segments, i);
    assert(segments[s].tiled());
    assert(placed(segments[s].num, segments[s].data, segments[s].entries, j));
    s
}

/// One step of compaction, over segments: where segment `i` is replaced by
/// a segment that holds its live records, or taken away where it has none,
/// and the index is moved to the new records, the index stays the one of
/// the log and every key keeps its value.
pub proof fn lemma_segment_step(
    segments: Seq<SegmentView>,
    index: Map<Seq<char>, CommandPosition>,
    after: Map<Seq<char>, CommandPosition>,
    i: int,
    fresh: SegmentView,
    src: Seq<int>,
)
    requires
        ascending(segments),
        forall|s: int| 0 <= s < segments.len() ==> (#[trigger] segments[s]).tiled(),
        0 <= i < segments.len(),
        index_of(index, log_of(segments)),
        all_live(index, log_of(segments.take(i))),
        fresh.tiled(),
        fresh.num == segments[i].num,
        keeps_live(index, segments[i].entries, fresh.entries, src, segments[i].entries.len() as int),
        moved_to(index, after, fresh.entries),
    ensures
        ({
            let next = if fresh.entries.len() > 0 {
                segments.update(i, fresh)
            } else {
                segments.remove(i)
            };
            let upto = if fresh.entries.len() > 0 {
                i + 1
            } else {
                i
            };
            &&& index_of(after, log_of(next))
            &&& contents_of(log_of(next)) == contents_of(log_of(segments))
            &&& all_live(after, log_of(next.take(upto)))
        }),
{
    let done = log_of(segments.take(i));
    let old = segments[i].entries;
    let rest = log_of(segments.skip(i + 1));
    let kept = fresh.entries;
    let num = segments[i].num;
    lemma_log_split(segments, i);
    assert forall|x: int| 0 <= x < done.len() implies (#[trigger] done[x]).at.file_num != num by {
        let front = segments.take(i);
        assert forall|s: int| 0 <= s < front.len() implies (#[trigger] front[s]).tiled() by {
            assert(segments[s].tiled());
        }
        let s = lemma_log_file_num(front, x);
        assert(segments[s].num < segments[i].num);
    }
    assert forall|x: int| 0 <= x < rest.len() implies (#[trigger] rest[x]).at.file_num != num by {
        let back = segments.skip(i + 1);
        assert forall|s: int| 0 <= s < back.len() implies (#[trigger] back[s]).tiled() by {
            assert(segments[s + i + 1].tiled());
        }
        let s = lemma_log_file_num(back, x);
        assert(segments[i].num < segments[s + i + 1].num);
    }
    assert(segments[i].tiled());
    assert forall|x: int| 0 <= x < old.len() implies (#[trigger] old[x]).at.file_num == num by {
        assert(placed(num, segments[i].data, old, x));
    }
    lemma_segment_positions(segments[i]);
    lemma_compact_step(index, after, done, old, rest, kept, src, num);
    if kept.len() > 0 {
        let next = segments.update(i, fresh);
        lemma_log_split(next, i);
        assert(next.take(i) =~= segments.take(i));
        assert(next.skip(i + 1) =~= segments.skip(i + 1));
        assert(next.take(i + 1) =~= segments.take(i).push(fresh));
        lemma_log_of_push(segments.take(i), fresh);
    } else {
        let next = segments.remove(i);
        assert(next =~= segments.take(i) + segments.skip(i + 1));
        lemma_log_of_concat(segments.take(i), segments.skip(i + 1));
        assert(done + kept + rest =~= done + rest);
        assert(next.take(i) =~= segments.take(i));
        assert(done + kept =~= done);
    }
}

/// The log of segments is the records of the first, followed by the log
/// of the others.
pub proof fn lemma_log_of_first(segments: Seq<SegmentView>)
    requires
        segments.len() > 0,
    ensures
        log_of(segments) == segments[0].entries + log_of(segments.skip(1)),
{
    lemma_log_split(segments, 0);
    assert(segments.take(0) =~= Seq::empty());
    assert(log_of(segments.take(0)) + segments[0].entries =~= segments[0].entries);
}

/// One step of compaction, seen from the segments as they were before
/// compaction began.  Segment `i`, which was segment `k` then, gives way
/// to `fresh`; the segments before it are the compacted ones, and the
/// segments behind it are still as they were.
pub proof fn lemma_compact_progress(
    origin: Seq<SegmentView>,
    first: Map<Seq<char>, CommandPosition>,
    k: int,
    segments: Seq<SegmentView>,
    i: int,
    index: Map<Seq<char>, CommandPosition>,
    after: Map<Seq<char>, CommandPosition>,
    fresh: SegmentView,
    src: Seq<int>,
)
    requires
        ascending(segments),
        forall|s: int| 0 <= s < segments.len() ==> (#[trigger] segments[s]).tiled(),
        0 <= i < segments.len(),
        0 <= k < origin.len(),
        segments.take(i) == squeeze_all(origin.take(k), first),
        segments.skip(i) == origin.skip(k),
        forall|x: int|
            0 <= x < log_of(origin.skip(k)).len() ==> live(
                index,
                #[trigger] log_of(origin.skip(k))[x],
            ) == live(first, log_of(origin.skip(k))[x]),
        fresh.tiled(),
        fresh == squeeze(segments[i], index),
        keeps_live(index, segments[i].entries, fresh.entries, src, segments[i].entries.len() as int),
        moved_to(index, after, fresh.entries),
    ensures
        fresh == squeeze(origin[k], first),
        ({
            let next = if fresh.entries.len() > 0 {
                segments.update(i, fresh)
            } else {
                segments.remove(i)
            };
            let upto = if fresh.entries.len() > 0 {
                i + 1
            } else {
                i
            };
            &&& next.take(upto) == squeeze_all(origin.take(k + 1), first)
            &&& next.skip(upto) == origin.skip(k + 1)
        }),
        squeeze_ops(origin.take(k + 1), first) == squeeze_ops(origin.take(k), first).push(
            if fresh.entries.len() > 0 {
                DiskOpView::Replace { file_num: fresh.num, data: fresh.data }
            } else {
                DiskOpView::Remove { file_num: fresh.num }
            },
        ),
        forall|x: int|
            0 <= x < log_of(origin.skip(k + 1)).len() ==> live(
                after,
                #[trigger] log_of(origin.skip(k + 1))[x],
            ) == live(first, log_of(origin.skip(k + 1))[x]),
{
    let seg = segments[i];
    let num = seg.num;
    let old = seg.entries;
    let kept = fresh.entries;
    assert(segments.skip(i)[0] == segments[i]);
    assert(origin.skip(k)[0] == origin[k]);
    assert(origin[k] == seg);
    let here = log_of(origin.skip(k));
    let rest = log_of(origin.skip(k + 1));
    lemma_log_of_first(origin.skip(k));
    assert(origin.skip(k).skip(1) =~= origin.skip(k + 1));
    assert(here == old + rest);
    assert forall|j: int| 0 <= j < old.len() implies live(index, #[trigger] old[j]) == live(
        first,
        old[j],
    ) by {
        assert(here[j] == old[j]);
    }
    lemma_survivors_same(old, index, first);
    assert(origin.take(k + 1).drop_last() =~= origin.take(k));
    assert(origin.take(k + 1).last() == origin[k]);
    assert(seg.tiled());
    assert forall|j: int| 0 <= j < old.len() implies (#[trigger] old[j]).at.file_num == num by {
        assert(placed(num, seg.data, old, j));
    }
    assert forall|t: int| 0 <= t < kept.len() implies (#[trigger] kept[t]).at.file_num == num by {
        assert(placed(fresh.num, fresh.data, kept, t));
    }
    let back = segments.skip(i + 1);
    assert(back =~= origin.skip(k + 1)) by {
        assert forall|s: int| 0 <= s < back.len() implies back[s] == origin.skip(k + 1)[s] by {
            assert(segments.skip(i)[s + 1] == origin.skip(k)[s + 1]);
        }
        assert(segments.skip(i).len() == origin.skip(k).len());
    }
    assert forall|x: int| 0 <= x < rest.len() implies live(after, #[trigger] rest[x]) == live(
        first,
        rest[x],
    ) by {
        assert forall|s: int| 0 <= s < back.len() implies (#[trigger] back[s]).tiled() by {
            assert(segments[s + i + 1].tiled());
        }
        let s = lemma_log_file_num(back, x);
        assert(segments[i].num < segments[s + i + 1].num);
        lemma_moves_spare(index, after, old, kept, src, num, rest[x]);
        assert(here[old.len() + x] == rest[x]);
    }
    if kept.len() > 0 {
        let next = segments.update(i, fresh);
        assert(next.take(i + 1) =~= segments.take(i).push(fresh));
        assert(next.skip(i + 1) =~= segments.skip(i + 1));
    } else {
        let next = segments.remove(i);
        assert(next.take(i) =~= segments.take(i));
        assert(next.skip(i) =~= segments.skip(i + 1));
    }
}

/// Where the records `old` in the middle of a log give way to some of
/// them, `kept`, which lie no further behind in their segment, the log
/// stays one of sound records, and its records start within the same size.
pub proof fn lemma_kept_sound(
    done: Seq<Entry>,
    old: Seq<Entry>,
    rest: Seq<Entry>,
    kept: Seq<Entry>,
    src: Seq<int>,
    limit: u64,
)
    requires
        all_sound(done + old + rest),
        all_sound(kept),
        src.len() == kept.len(),
        forall|t: int|
            0 <= t < kept.len() ==> 0 <= (#[trigger] src[t]) < old.len() && kept[t].at.pos
                <= old[src[t]].at.pos && kept[t].at.file_num == old[src[t]].at.file_num,
    ensures
        all_sound(done + kept + rest),
        starts_within(done + old + rest, limit) ==> starts_within(done + kept + rest, limit),
{
    let log = done + old + rest;
    let next = done + kept + rest;
    assert forall|x: int| 0 <= x < next.len() implies sound(#[trigger] next[x]) by {
        if x < done.len() {
            assert(log[x] == done[x]);
        } else if x < done.len() + kept.len() {
            assert(sound(kept[x - done.len()]));
        } else {
            let y = x - done.len() - kept.len();
            assert(log[done.len() + old.len() + y] == rest[y]);
        }
    }
    if starts_within(log, limit) {
        assert forall|x: int| 0 <= x < next.len() implies (#[trigger] next[x]).at.pos < limit
            || next[x].at.pos == 0 || next[x].at.file_num == u64::MAX by {
            if x < done.len() {
                assert(log[x] == done[x]);
            } else if x < done.len() + kept.len() {
                let t = x - done.len();
                assert(kept[t].at.pos <= old[src[t]].at.pos);
                assert(log[done.len() + src[t]] == old[src[t]]);
            } else {
                let y = x - done.len() - kept.len();
                assert(log[done.len() + old.len() + y] == rest[y]);
            }
        }
    }
}

/// Whether every segment but the active one holds live records only, and
/// at least one.
pub open spec fn squeezed(files: FileStoreView, index: Map<Seq<char>, CommandPosition>) -> bool {
    &&& all_live(index, log_of(files.segments.drop_last()))
    &&& forall|s: int|
        0 <= s < files.segments.len() - 1 ==> (#[trigger] files.segments[s]).entries.len() > 0
}

/// Writes the live records of a segment into a new segment with the same
/// number.  Returns the new segment, for each of its records the key and
/// the new place, and for each the record of `seg` that it comes from.
pub(crate) fn rewrite(seg: &Segment, index: &StringHashMap<CommandPosition>) -> (r: (
    Segment,
    Vec<(String, CommandPosition)>,
    Ghost<Seq<int>>,
))
    requires
        seg@.tiled(),
        all_sound(seg@.entries),
    ensures
        r.0@ == squeeze(seg@, index@),
        r.0@.tiled(),
        r.0@.num == seg@.num,
        keeps_live(index@, seg@.entries, r.0@.entries, r.2@, seg@.entries.len() as int),
        all_sound(r.0@.entries),
        forall|t: int|
            0 <= t < r.0@.entries.len() ==> (#[trigger] r.0@.entries[t]).at.pos <= seg@.entries[r.2@[t]].at.pos
                && r.0@.entries[t].at.file_num == seg@.entries[r.2@[t]].at.file_num,
        r.1@.len() == r.0@.entries.len(),
        forall|t: int|
            0 <= t < r.1@.len() ==> (#[trigger] r.1@[t]).0@ == r.0@.entries[t].cmd.key() && r.1@[t].1
                == r.0@.entries[t].at,
{
    let scan = seg.scan();
    let mut fresh = Segment::new(seg.num());
    let mut moved: Vec<(String, CommandPosition)> = Vec::new();
    let ghost mut src: Seq<int> = Seq::empty();
    let ghost old = seg@.entries;
    let mut j: usize = 0;
    proof {
        assert(old.take(0) =~= Seq::empty());
    }
    while j < scan.records.len()
        invariant
            j <= scan.records@.len(),
            fresh@ == packed(seg@.num, survivors(old.take(j as int), index@)),
            entries_of(scan.records@) == old,
            old == seg@.entries,
            seg@.tiled(),
            all_sound(old),
            fresh@.tiled(),
            fresh@.num == seg@.num,
            keeps_live(index@, old, fresh@.entries, src, j as int),
            all_sound(fresh@.entries),
            fresh@.data.len() <= end_of(old.take(j as int)),
            forall|t: int|
                0 <= t < fresh@.entries.len() ==> (#[trigger] fresh@.entries[t]).at.pos
                    <= old[src[t]].at.pos && fresh@.entries[t].at.file_num == old[src[t]].at.file_num,
            moved@.len() == fresh@.entries.len(),
            forall|t: int|
                0 <= t < moved@.len() ==> (#[trigger] moved@[t]).0@ == fresh@.entries[t].cmd.key()
                    && moved@[t].1 == fresh@.entries[t].at,
        decreases scan.records@.len() - j,
    {
        let cmd = &scan.records[j].0;
        let at = scan.records[j].1;
        let key = cmd.get_key();
        let ghost e = old[j as int];
        assert(e == Entry { cmd: cmd@, at });
        proof {
            assert(placed(seg@.num, seg@.data, old, j as int));
            assert(old.take(j + 1).last() == old[j as int]);
            assert(old.take(j + 1).drop_last() =~= old.take(j as int));
            assert(sound(old[j as int]));
        }
        let ghost cmds = survivors(old.take(j as int), index@);
        let is_live = match index.get(key.as_str()) {
            Some(p) => p.file_num == at.file_num && p.pos == at.pos && p.len == at.len,
            None => false,
        };
        assert(is_live == live(index@, e));
        let ghost kept = fresh@.entries;
        if is_live {
            let data = match encode_command(cmd) {
                Ok(data) => data,
                Err(_) => Vec::new(),
            };
            let new_at = fresh.append(data.as_slice());
            moved.push((key.clone(), new_at));
            proof {
                assert(cmds.push(cmd@).drop_last() =~= cmds);
                let next = fresh@.entries;
                let grown = src.push(j as int);
                assert forall|t: int| 0 <= t < grown.len() implies 0 <= (#[trigger] grown[t]) < j + 1
                    && live(index@, old[grown[t]]) && next[t].cmd == old[grown[t]].cmd by {
                    if t < src.len() {
                        assert(grown[t] == src[t]);
                        assert(next[t] == kept[t]);
                    }
                }
                assert forall|t: int, u: int| 0 <= t < u < grown.len() implies (#[trigger] grown[t])
                    < (#[trigger] grown[u]) by {
                    if u < src.len() {
                        assert(src[t] < src[u]);
                    } else {
                        assert(grown[t] == src[t]);
                    }
                }
                assert forall|p: int| 0 <= p < j + 1 && live(index@, #[trigger] old[p]) implies exists|
                    t: int,
                |
                    0 <= t < grown.len() && #[trigger] grown[t] == p by {
                    if p < j {
                        let t = choose|t: int| 0 <= t < src.len() && #[trigger] src[t] == p;
                        assert(grown[t] == p);
                    } else {
                        assert(grown[src.len() as int] == p);
                    }
                }
                assert forall|t: int| 0 <= t < next.len() implies sound(#[trigger] next[t]) by {
                    if t < kept.len() {
                        assert(next[t] == kept[t]);
                    } else {
                        assert(sound(e));
                    }
                }
                assert forall|t: int| 0 <= t < next.len() implies (#[trigger] next[t]).at.pos
                    <= old[grown[t]].at.pos && next[t].at.file_num == old[grown[t]].at.file_num by {
                    if t < kept.len() {
                        assert(next[t] == kept[t]);
                        assert(grown[t] == src[t]);
                    }
                }
                assert forall|t: int| 0 <= t < moved@.len() implies (#[trigger] moved@[t]).0@
                    == next[t].cmd.key() && moved@[t].1 == next[t].at by {
                    if t < kept.len() {
                        assert(next[t] == kept[t]);
                    }
                }
                src = grown;
            }
        } else {
            proof {
                assert forall|p: int| 0 <= p < j + 1 && live(index@, #[trigger] old[p]) implies exists|
                    t: int,
                |
                    0 <= t < src.len() && #[trigger] src[t] == p by {
                    let t = choose|t: int| 0 <= t < src.len() && #[trigger] src[t] == p;
                }
            }
        }
        j += 1;
    }
    proof {
        assert(old.take(j as int) =~= old);
    }
    (fresh, moved, Ghost(src))
}

/// Moves the index to the records of a rewritten segment.
pub(crate) fn apply_moves(
    index: &mut StringHashMap<CommandPosition>,
    moved: &Vec<(String, CommandPosition)>,
    Ghost(kept): Ghost<Seq<Entry>>,
)
    requires
        moved@.len() == kept.len(),
        forall|t: int|
            0 <= t < moved@.len() ==> (#[trigger] moved@[t]).0@ == kept[t].cmd.key() && moved@[t].1
                == kept[t].at,
        forall|t: int, u: int|
            0 <= t < u < kept.len() ==> (#[trigger] kept[t]).cmd.key() != (#[trigger] kept[u]).cmd.key(),
    ensures
        moved_to(old(index)@, final(index)@, kept),
{
    let mut t: usize = 0;
    while t < moved.len()
        invariant
            t <= moved@.len(),
            moved@.len() == kept.len(),
            forall|t: int|
                0 <= t < moved@.len() ==> (#[trigger] moved@[t]).0@ == kept[t].cmd.key()
                    && moved@[t].1 == kept[t].at,
            forall|t: int, u: int|
                0 <= t < u < kept.len() ==> (#[trigger] kept[t]).cmd.key() != (
                #[trigger] kept[u]).cmd.key(),
            all_live(index@, kept.take(t as int)),
            forall|key: Seq<char>|
                !mentions(kept.take(t as int), key) ==> (#[trigger] index@.contains_key(key)) == old(
                    index,
                )@.contains_key(key) && (index@.contains_key(key) ==> index@[key] == old(
                    index,
                )@[key]),
        decreases moved@.len() - t,
    {
        let ghost before = index@;
        let ghost done = kept.take(t as int);
        index.insert(moved[t].0.clone(), moved[t].1);
        proof {
            let next = kept.take(t + 1);
            let k = kept[t as int].cmd.key();
            assert forall|u: int| 0 <= u < next.len() implies live(index@, #[trigger] next[u]) by {
                if u < t {
                    assert(live(before, done[u]));
                    assert(kept[u].cmd.key() != kept[t as int].cmd.key());
                }
            }
            assert forall|key: Seq<char>| !mentions(next, key) implies (#[trigger] index@.contains_key(
                key,
            )) == old(index)@.contains_key(key) && (index@.contains_key(key) ==> index@[key] == old(
                index,
            )@[key]) by {
                assert(next[t as int].cmd.key() != key);
                if mentions(done, key) {
                    let u = choose|u: int| 0 <= u < done.len() && (#[trigger] done[u]).cmd.key() == key;
                    assert(next[u].cmd.key() == key);
                }
                assert(before.contains_key(key) == old(index)@.contains_key(key));
            }
        }
        t += 1;
    }
    proof {
        assert(kept.take(kept.len() as int) =~= kept);
    }
}

} // verus!
