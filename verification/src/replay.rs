//! Replaying the log: what reading the segments of a directory gives.

use vstd::prelude::*;
use crate::compaction::lemma_log_split;
use crate::file_store::log_of;
use crate::log::{all_sound, sound, Entry};
use crate::wal::{lemma_reads_unique, reads_to, tail_at, SegmentView, Tail};

verus! {

/// Whether the segment `after` is what reading the segment `before` gives:
/// the records that its bytes hold, and its bytes up to the end of the last
/// record.  Behind that end nothing may follow, but in the last segment a
/// record that was cut off.
pub open spec fn read_from(before: SegmentView, after: SegmentView, last: bool) -> bool {
    let end = after.data.len() as int;
    &&& after.num == before.num
    &&& reads_to(before.num, before.data, after.entries, end)
    &&& after.data == before.data.take(end)
    &&& match tail_at(before.data, end) {
        Tail::Clean => true,
        Tail::Torn => last,
        Tail::Malformed => false,
    }
}

/// Whether the segments `after` are what reading the segments `before` gives.
pub open spec fn loaded(before: Seq<SegmentView>, after: Seq<SegmentView>) -> bool {
    &&& after.len() == before.len()
    &&& forall|s: int|
        0 <= s < before.len() ==> read_from(before[s], #[trigger] after[s], s == before.len() - 1)
}

/// Whether some segment holds bytes that are no records: bytes that are
/// malformed, or a record that is cut off in a segment that is not the last.
pub open spec fn unreadable(segments: Seq<SegmentView>) -> bool {
    exists|s: int, entries: Seq<Entry>, end: int|
        0 <= s < segments.len() && #[trigger] reads_to(
            segments[s].num,
            segments[s].data,
            entries,
            end,
        ) && match tail_at(segments[s].data, end) {
            Tail::Clean => false,
            Tail::Torn => s < segments.len() - 1,
            Tail::Malformed => true,
        }
}

/// Whether some segment holds a record that is not as this library writes it.
pub open spec fn unwritable(segments: Seq<SegmentView>) -> bool {
    exists|s: int, entries: Seq<Entry>, end: int, j: int|
        0 <= s < segments.len() && #[trigger] reads_to(
            segments[s].num,
            segments[s].data,
            entries,
            end,
        ) && 0 <= j < entries.len() && !sound(#[trigger] entries[j])
}

/// The segments that reading `segments` gives, where they can be read.
pub open spec fn replayed(segments: Seq<SegmentView>) -> Seq<SegmentView> {
    choose|after: Seq<SegmentView>| loaded(segments, after)
}

/// Reading the same segments gives the same segments.
pub proof fn lemma_loaded_unique(before: Seq<SegmentView>, a: Seq<SegmentView>, b: Seq<SegmentView>)
    requires
        loaded(before, a),
        loaded(before, b),
    ensures
        a == b,
{
    assert forall|s: int| 0 <= s < before.len() implies a[s] == b[s] by {
        assert(read_from(before[s], a[s], s == before.len() - 1));
        assert(read_from(before[s], b[s], s == before.len() - 1));
        lemma_reads_unique(
            before[s].num,
            before[s].data,
            a[s].entries,
            a[s].data.len() as int,
            b[s].entries,
            b[s].data.len() as int,
        );
        assert(a[s].data =~= b[s].data);
    }
    assert(a =~= b);
}

/// Segments that were read hold no bytes that are no records, and no
/// record that is not as this library writes it.
pub proof fn lemma_loaded_readable(before: Seq<SegmentView>, after: Seq<SegmentView>)
    requires
        loaded(before, after),
        all_sound(log_of(after)),
    ensures
        !unreadable(before),
        !unwritable(before),
{
    assert forall|s: int, entries: Seq<Entry>, end: int|
        0 <= s < before.len() && #[trigger] reads_to(
            before[s].num,
            before[s].data,
            entries,
            end,
        ) implies entries == after[s].entries && end == after[s].data.len() && all_sound(
        entries,
    ) by {
        assert(read_from(before[s], after[s], s == before.len() - 1));
        lemma_reads_unique(
            before[s].num,
            before[s].data,
            entries,
            end,
            after[s].entries,
            after[s].data.len() as int,
        );
        lemma_log_split(after, s);
        let done = log_of(after.take(s));
        assert forall|j: int| 0 <= j < entries.len() implies sound(#[trigger] entries[j]) by {
            assert(log_of(after)[done.len() + j] == entries[j]);
        }
    }
}

} // verus!
