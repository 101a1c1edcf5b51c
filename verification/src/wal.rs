//! One segment of the write-ahead log: its number and its bytes.
//!
//! A segment is where records are appended and where they are read again.
//! It knows, as a ghost, the entries that its bytes hold.

use vstd::prelude::*;
use vstd::slice::slice_subrange;
use crate::command::Command;
use crate::log::{end_of, placed, tiles, CommandPosition, Entry};
use crate::record::{
    decode_at, lemma_record_bounds, lemma_record_window, parse_at, Decoded, Parse,
};

verus! {

/// What a segment is: its number, its bytes, and the entries that were read
/// from it or written to it.
pub struct SegmentView {
    pub num: u64,
    pub data: Seq<u8>,
    pub entries: Seq<Entry>,
}

impl SegmentView {
    /// Whether the entries are the records that the bytes hold.
    pub open spec fn tiled(self) -> bool {
        tiles(self.num, self.data, self.entries)
    }
}

/// A segment of the log.
pub struct Segment {
    num: u64,
    data: Vec<u8>,
    entries: Ghost<Seq<Entry>>,
}

impl View for Segment {
    type V = SegmentView;

    closed spec fn view(&self) -> SegmentView {
        SegmentView { num: self.num, data: self.data@, entries: self.entries@ }
    }
}

/// How the records of a segment end.
#[derive(Clone, Copy, Debug, PartialEq, Eq, Structural)]
pub enum Tail {
    /// The last record ends with the segment.
    Clean,
    /// The segment ends inside a record.
    Torn,
    /// Bytes that are no record follow.
    Malformed,
}

/// The records of a segment as `Segment::scan` found them.
pub struct Scan {
    /// Each command with the place of its record.
    pub records: Vec<(Command, CommandPosition)>,
    /// Where the last record ends.
    pub end: u64,
    /// What follows the last record.
    pub tail: Tail,
}

/// The entries that a list of commands with their places stands for.
pub open spec fn entries_of(records: Seq<(Command, CommandPosition)>) -> Seq<Entry> {
    Seq::new(records.len(), |i: int| Entry { cmd: records[i].0@, at: records[i].1 })
}

/// How the records of `bytes` end, given that they are read up to `end`.
pub open spec fn tail_at(bytes: Seq<u8>, end: int) -> Tail {
    if end >= bytes.len() {
        Tail::Clean
    } else {
        match parse_at(bytes, end) {
            Parse::Malformed => Tail::Malformed,
            _ => Tail::Torn,
        }
    }
}

/// Two lists of entries that both lie in the same bytes from the first byte
/// on agree as far as both go.
pub proof fn lemma_placed_unique(num: u64, bytes: Seq<u8>, a: Seq<Entry>, b: Seq<Entry>, i: int)
    requires
        forall|j: int| 0 <= j < a.len() ==> #[trigger] placed(num, bytes, a, j),
        forall|j: int| 0 <= j < b.len() ==> #[trigger] placed(num, bytes, b, j),
        0 <= i <= a.len(),
        i <= b.len(),
    ensures
        a.take(i) == b.take(i),
    decreases i,
{
    if i > 0 {
        lemma_placed_unique(num, bytes, a, b, i - 1);
        assert(placed(num, bytes, a, i - 1));
        assert(placed(num, bytes, b, i - 1));
        assert(a.take(i) =~= a.take(i - 1).push(a[i - 1]));
        assert(b.take(i) =~= b.take(i - 1).push(b[i - 1]));
    } else {
        assert(a.take(0) =~= b.take(0));
    }
}

/// Whether reading `bytes` record by record from the first byte gives
/// `entries` and stops at `end`: at the end of the bytes, or before bytes
/// that are no whole record.
pub open spec fn reads_to(num: u64, bytes: Seq<u8>, entries: Seq<Entry>, end: int) -> bool {
    &&& forall|i: int| 0 <= i < entries.len() ==> #[trigger] placed(num, bytes, entries, i)
    &&& end == end_of(entries)
    &&& end <= bytes.len()
    &&& end < bytes.len() ==> !(parse_at(bytes, end) is Record)
}

/// Reading the same bytes gives the same entries and stops at the same place.
pub proof fn lemma_reads_unique(
    num: u64,
    bytes: Seq<u8>,
    a: Seq<Entry>,
    a_end: int,
    b: Seq<Entry>,
    b_end: int,
)
    requires
        reads_to(num, bytes, a, a_end),
        reads_to(num, bytes, b, b_end),
    ensures
        a == b,
        a_end == b_end,
{
    if a.len() <= b.len() {
        lemma_placed_unique(num, bytes, a, b, a.len() as int);
        assert(a.take(a.len() as int) =~= a);
        if a.len() < b.len() {
            assert(placed(num, bytes, b, a.len() as int));
        }
        assert(b.take(b.len() as int) =~= b);
    } else {
        lemma_placed_unique(num, bytes, a, b, b.len() as int);
        assert(b.take(b.len() as int) =~= b);
        assert(placed(num, bytes, a, b.len() as int));
    }
}

impl Segment {
    /// An empty segment with the number `num`.
    pub fn new(num: u64) -> (seg: Segment)
        ensures
            seg@ == (SegmentView { num, data: Seq::empty(), entries: Seq::empty() }),
            seg@.tiled(),
    {
        Segment { num, data: Vec::new(), entries: Ghost(Seq::empty()) }
    }

    /// The segment with the number `num` that holds `data`.  Its records are
    /// not read yet.
    pub fn from_bytes(num: u64, data: Vec<u8>) -> (seg: Segment)
        ensures
            seg@ == (SegmentView { num, data: data@, entries: Seq::empty() }),
    {
        Segment { num, data, entries: Ghost(Seq::empty()) }
    }

    /// The number of the segment.
    pub fn num(&self) -> (num: u64)
        ensures
            num == self@.num,
    {
        self.num
    }

    /// The number of bytes in the segment, which is the offset at which the
    /// next record will be written.
    pub fn pos(&self) -> (pos: u64)
        ensures
            pos == self@.data.len(),
    {
        self.data.len() as u64
    }

    /// The bytes of the segment.
    pub fn bytes(&self) -> (bytes: &[u8])
        ensures
            bytes@ == self@.data,
    {
        self.data.as_slice()
    }

    /// A copy of the bytes of the segment.
    pub fn to_vec(&self) -> (bytes: Vec<u8>)
        ensures
            bytes@ == self@.data,
    {
        vstd::slice::slice_to_vec(self.data.as_slice())
    }

    /// Whether the segment has reached `threshold` bytes, so that the next
    /// record belongs into a new segment.
    pub fn is_full(&self, threshold: u64) -> (full: bool)
        ensures
            full == (self@.data.len() >= threshold),
    {
        self.data.len() as u64 >= threshold
    }

    /// The `len` bytes at `pos`, or `None` where the segment ends before them.
    pub fn read(&self, pos: u64, len: u64) -> (bytes: Option<&[u8]>)
        ensures
            match bytes {
                Some(bytes) => pos + len <= self@.data.len() && bytes@ == self@.data.subrange(
                    pos as int,
                    pos + len,
                ),
                None => pos + len > self@.data.len(),
            },
    {
        let total: u64 = self.data.len() as u64;
        if pos > total || len > total - pos {
            None
        } else {
            Some(slice_subrange(self.data.as_slice(), pos as usize, (pos + len) as usize))
        }
    }

    /// Appends one record and says where it lies.
    pub fn append(&mut self, record: &[u8]) -> (at: CommandPosition)
        requires
            old(self)@.tiled(),
            parse_at(record@, 0) matches Parse::Record { len, .. } && len == record@.len(),
        ensures
            at == (CommandPosition {
                file_num: old(self)@.num,
                pos: old(self)@.data.len() as u64,
                len: record@.len() as u64,
            }),
            final(self)@ == (SegmentView {
                num: old(self)@.num,
                data: old(self)@.data + record@,
                entries: old(self)@.entries.push(Entry { cmd: parse_at(record@, 0)->cmd, at }),
            }),
            final(self)@.tiled(),
            old(self)@.data.len() + record@.len() <= usize::MAX,
    {
        let at = CommandPosition {
            file_num: self.num,
            pos: self.data.len() as u64,
            len: record.len() as u64,
        };
        let ghost before = self@;
        let ghost e = Entry { cmd: parse_at(record@, 0)->cmd, at };
        self.data.extend_from_slice(record);
        let total: usize = self.data.len();
        self.entries = Ghost(before.entries.push(e));
        proof {
            lemma_tiles_push(before, record@);
            assert(self@.data == before.data + record@);
        }
        at
    }

    /// Reads the records of the segment from its first byte on, up to the
    /// end or to the first bytes that are no whole record.
    pub fn scan(&self) -> (scan: Scan)
        ensures
            reads_to(self@.num, self@.data, entries_of(scan.records@), scan.end as int),
            scan.tail == tail_at(self@.data, scan.end as int),
            self@.tiled() ==> scan.tail is Clean && entries_of(scan.records@) == self@.entries,
    {
        let mut records: Vec<(Command, CommandPosition)> = Vec::new();
        let mut pos: usize = 0;
        let mut tail = Tail::Clean;
        while pos < self.data.len()
            invariant_except_break
                tail is Clean,
            invariant
                pos <= self.data@.len(),
                pos == end_of(entries_of(records@)),
                forall|i: int|
                    0 <= i < records@.len() ==> #[trigger] placed(
                        self.num,
                        self.data@,
                        entries_of(records@),
                        i,
                    ),
            ensures
                pos <= self.data@.len(),
                pos == end_of(entries_of(records@)),
                forall|i: int|
                    0 <= i < records@.len() ==> #[trigger] placed(
                        self.num,
                        self.data@,
                        entries_of(records@),
                        i,
                    ),
                tail == tail_at(self.data@, pos as int),
                pos < self.data@.len() ==> !(parse_at(self.data@, pos as int) is Record),
            decreases self.data@.len() - pos,
        {
            match decode_at(self.data.as_slice(), pos) {
                Decoded::Record { cmd, len } => {
                    let at = CommandPosition {
                        file_num: self.num,
                        pos: pos as u64,
                        len: len as u64,
                    };
                    let ghost before = entries_of(records@);
                    records.push((cmd, at));
                    proof {
                        let after = entries_of(records@);
                        assert(after =~= before.push(Entry { cmd: cmd@, at }));
                        assert(after.take(after.len() - 1) =~= before);
                        assert forall|i: int| 0 <= i < after.len() implies #[trigger] placed(
                            self.num,
                            self.data@,
                            after,
                            i,
                        ) by {
                            if i < before.len() {
                                assert(placed(self.num, self.data@, before, i));
                                assert(after.take(i) =~= before.take(i));
                            }
                        }
                    }
                    pos = pos + len;
                },
                Decoded::Truncated => {
                    tail = Tail::Torn;
                    break ;
                },
                Decoded::Malformed => {
                    tail = Tail::Malformed;
                    break ;
                },
            }
        }
        proof {
            if self@.tiled() {
                lemma_reads_unique(
                    self.num,
                    self.data@,
                    entries_of(records@),
                    pos as int,
                    self@.entries,
                    self.data@.len() as int,
                );
            }
        }
        Scan { records, end: pos as u64, tail }
    }

    /// Takes `entries` as the records of the first `end` bytes and drops the
    /// bytes behind them.
    pub(crate) fn settle(&mut self, end: u64, Ghost(entries): Ghost<Seq<Entry>>)
        requires
            reads_to(old(self)@.num, old(self)@.data, entries, end as int),
        ensures
            final(self)@ == (SegmentView {
                num: old(self)@.num,
                data: old(self)@.data.take(end as int),
                entries,
            }),
            final(self)@.tiled(),
    {
        let ghost before = self@;
        self.data.truncate(end as usize);
        self.entries = Ghost(entries);
        proof {
            assert forall|i: int| 0 <= i < entries.len() implies #[trigger] placed(
                self.num,
                self.data@,
                entries,
                i,
            ) by {
                assert(placed(before.num, before.data, entries, i));
                let p = entries[i].at.pos as int;
                let n = entries[i].at.len as int;
                lemma_tiles_upto_ordered(before.num, before.data, entries, i);
                assert(before.data.subrange(p, p + n) =~= self.data@.subrange(p, p + n));
                lemma_record_window(before.data, p, self.data@, p);
            }
        }
    }
}

/// Every entry that lies in a segment ends before the entries end.
pub proof fn lemma_tiles_upto_ordered(num: u64, bytes: Seq<u8>, entries: Seq<Entry>, i: int)
    requires
        forall|j: int| 0 <= j < entries.len() ==> #[trigger] placed(num, bytes, entries, j),
        0 <= i < entries.len(),
    ensures
        entries[i].at.pos + entries[i].at.len <= end_of(entries),
    decreases entries.len() - i,
{
    if i < entries.len() - 1 {
        lemma_tiles_upto_ordered(num, bytes, entries, i + 1);
        assert(placed(num, bytes, entries, i + 1));
        assert(entries.take(i + 1).last() == entries[i]);
    }
}

/// A record that is appended to a segment becomes its last entry.
pub proof fn lemma_tiles_push(seg: SegmentView, record: Seq<u8>)
    requires
        seg.tiled(),
        parse_at(record, 0) matches Parse::Record { len, .. } && len == record.len(),
        seg.data.len() + record.len() <= u64::MAX,
    ensures
        ({
            let at = CommandPosition {
                file_num: seg.num,
                pos: seg.data.len() as u64,
                len: record.len() as u64,
            };
            tiles(
                seg.num,
                seg.data + record,
                seg.entries.push(Entry { cmd: parse_at(record, 0)->cmd, at }),
            )
        }),
{
    let at = CommandPosition {
        file_num: seg.num,
        pos: seg.data.len() as u64,
        len: record.len() as u64,
    };
    let e = Entry { cmd: parse_at(record, 0)->cmd, at };
    let data = seg.data + record;
    let entries = seg.entries.push(e);
    lemma_record_bounds(record, 0);
    assert forall|i: int| 0 <= i < entries.len() implies #[trigger] placed(
        seg.num,
        data,
        entries,
        i,
    ) by {
        if i < seg.entries.len() {
            assert(placed(seg.num, seg.data, seg.entries, i));
            assert(entries.take(i) =~= seg.entries.take(i));
            let p = entries[i].at.pos as int;
            let n = entries[i].at.len as int;
            assert(seg.data.subrange(p, p + n) =~= data.subrange(p, p + n));
            lemma_record_window(seg.data, p, data, p);
        } else {
            assert(entries.take(i) =~= seg.entries);
            let p = seg.data.len() as int;
            assert(record.subrange(0, record.len() as int) =~= data.subrange(
                p,
                p + record.len(),
            ));
            lemma_record_window(record, 0, data, p);
        }
    }
}

} // verus!
