//! The directory of segments: which segments there are, which of them takes
//! the writes, and what has to be done to the files to keep up with them.

use vstd::prelude::*;
use crate::command::Command;
use crate::error::KvsError;
use crate::log::{CommandPosition, Entry};
use crate::names::{name_number, wal_file_name, wal_file_number, wal_name};
use crate::record::{
    decode_command, encodable, encode_command, lemma_record_window, parse_at, record_bytes,
    refused, Parse,
};
use crate::wal::{Segment, SegmentView};

verus! {

/// The size at which a segment stops taking writes, unless another is asked for.
pub const DEFAULT_FILE_CAPACITY: u64 = 8192;

/// One change to the files of the directory.
#[derive(Debug)]
pub enum DiskOp {
    /// Create the empty segment file with this number.
    Create {
        /// The number of the segment.
        file_num: u64,
    },
    /// Append the bytes to the segment file and flush it.
    Append {
        /// The number of the segment.
        file_num: u64,
        /// The bytes of one record.
        data: Vec<u8>,
    },
    /// Write the bytes to a new file and rename it over the segment file.
    Replace {
        /// The number of the segment.
        file_num: u64,
        /// The new content of the segment.
        data: Vec<u8>,
    },
    /// Delete the segment file.
    Remove {
        /// The number of the segment.
        file_num: u64,
    },
    /// Cut the segment file to this length.
    Truncate {
        /// The number of the segment.
        file_num: u64,
        /// The number of bytes that stay.
        len: u64,
    },
}

/// What a `DiskOp` is, over sequences of bytes.
pub enum DiskOpView {
    Create { file_num: u64 },
    Append { file_num: u64, data: Seq<u8> },
    Replace { file_num: u64, data: Seq<u8> },
    Remove { file_num: u64 },
    Truncate { file_num: u64, len: u64 },
}

impl View for DiskOp {
    type V = DiskOpView;

    open spec fn view(&self) -> DiskOpView {
        match self {
            DiskOp::Create { file_num } => DiskOpView::Create { file_num: *file_num },
            DiskOp::Append { file_num, data } => DiskOpView::Append {
                file_num: *file_num,
                data: data@,
            },
            DiskOp::Replace { file_num, data } => DiskOpView::Replace {
                file_num: *file_num,
                data: data@,
            },
            DiskOp::Remove { file_num } => DiskOpView::Remove { file_num: *file_num },
            DiskOp::Truncate { file_num, len } => DiskOpView::Truncate {
                file_num: *file_num,
                len: *len,
            },
        }
    }
}

/// The segment files of a directory: the bytes of each, by its number.
pub type Disk = Map<u64, Seq<u8>>;

/// The directory after one change.
pub open spec fn apply(disk: Disk, op: DiskOpView) -> Disk {
    match op {
        DiskOpView::Create { file_num } => disk.insert(file_num, Seq::empty()),
        DiskOpView::Append { file_num, data } => if disk.contains_key(file_num) {
            disk.insert(file_num, disk[file_num] + data)
        } else {
            disk.insert(file_num, data)
        },
        DiskOpView::Replace { file_num, data } => disk.insert(file_num, data),
        DiskOpView::Remove { file_num } => disk.remove(file_num),
        DiskOpView::Truncate { file_num, len } => if disk.contains_key(file_num) {
            disk.insert(file_num, disk[file_num].take(len as int))
        } else {
            disk
        },
    }
}

/// The directory after a list of changes, made in their order.
pub open spec fn run(disk: Disk, ops: Seq<DiskOpView>) -> Disk
    decreases ops.len(),
{
    if ops.len() == 0 {
        disk
    } else {
        apply(run(disk, ops.drop_last()), ops.last())
    }
}

/// The directory that holds exactly these segments.
pub open spec fn image(segments: Seq<SegmentView>) -> Disk
    decreases segments.len(),
{
    if segments.len() == 0 {
        Map::empty()
    } else {
        image(segments.drop_last()).insert(segments.last().num, segments.last().data)
    }
}

/// Whether the numbers of the segments grow.
pub open spec fn ascending(segments: Seq<SegmentView>) -> bool {
    forall|i: int, j: int|
        0 <= i < j < segments.len() ==> (#[trigger] segments[i]).num < (#[trigger] segments[j]).num
}

/// The records of all segments, in the order of the segments.
pub open spec fn log_of(segments: Seq<SegmentView>) -> Seq<Entry>
    decreases segments.len(),
{
    if segments.len() == 0 {
        Seq::empty()
    } else {
        log_of(segments.drop_last()) + segments.last().entries
    }
}

/// The segment with this number and these bytes, its records not read yet.
pub open spec fn unread(num: u64, data: Seq<u8>) -> SegmentView {
    SegmentView { num, data, entries: Seq::empty() }
}

/// The list with `seg` put behind the last segment with a smaller number.
pub open spec fn put_in(list: Seq<SegmentView>, seg: SegmentView) -> Seq<SegmentView>
    decreases list.len(),
{
    if list.len() == 0 || list.last().num < seg.num {
        list.push(seg)
    } else {
        put_in(list.drop_last(), seg).push(list.last())
    }
}

/// What the files of a directory are, over sequences: the name and the
/// bytes of each.
pub open spec fn file_views(files: Seq<(String, Vec<u8>)>) -> Seq<(Seq<char>, Seq<u8>)> {
    Seq::new(files.len(), |i: int| (files[i].0@, files[i].1@))
}

/// The segments that the files of a directory hold, in the order of their
/// numbers.  Files whose name is no name of a segment file are left out.
pub open spec fn arrange(files: Seq<(Seq<char>, Seq<u8>)>) -> Seq<SegmentView>
    decreases files.len(),
{
    if files.len() == 0 {
        Seq::empty()
    } else {
        let rest = arrange(files.drop_first());
        match name_number(files[0].0) {
            Some(num) => put_in(rest, unread(num, files[0].1)),
            None => rest,
        }
    }
}

/// The files of a directory that holds exactly these segments.
pub open spec fn files_of(segments: Seq<SegmentView>) -> Seq<(Seq<char>, Seq<u8>)> {
    Seq::new(segments.len(), |i: int| (wal_name(segments[i].num), segments[i].data))
}

/// Whether every record of the log starts before `threshold` or at the
/// first byte of its segment, unless its segment has the last number that
/// there is.
pub open spec fn starts_within(log: Seq<Entry>, threshold: u64) -> bool {
    forall|i: int|
        0 <= i < log.len() ==> (#[trigger] log[i]).at.pos < threshold || log[i].at.pos == 0
            || log[i].at.file_num == u64::MAX
}

/// What a file store is.
pub struct FileStoreView {
    /// The segments, the one that takes the writes last.
    pub segments: Seq<SegmentView>,
    /// The size at which a segment stops taking writes.
    pub threshold: u64,
    /// The changes that the files have not seen yet.
    pub journal: Seq<DiskOpView>,
    /// The files as they were when the journal was last taken.
    pub disk: Disk,
}

impl FileStoreView {
    /// Whether there is a segment to write to, the numbers of the segments
    /// grow, and the journal leads from the files to the segments.
    pub open spec fn wf(self) -> bool {
        &&& self.segments.len() > 0
        &&& ascending(self.segments)
        &&& run(self.disk, self.journal) == image(self.segments)
    }

    /// Whether, besides, every segment is known to hold whole records only.
    pub open spec fn tiled(self) -> bool {
        &&& self.wf()
        &&& forall|i: int| 0 <= i < self.segments.len() ==> (#[trigger] self.segments[i]).tiled()
    }

    /// The records of all segments.
    pub open spec fn log(self) -> Seq<Entry> {
        log_of(self.segments)
    }

    /// Whether every record starts before the size at which a segment
    /// stops taking writes, or is the first of its segment.  A segment is
    /// then at most that size and its last record long.  The segment with
    /// the last number that there is has no such bound: no segment can
    /// follow it.
    pub open spec fn within(self) -> bool {
        starts_within(self.log(), self.threshold)
    }

    /// The segment that takes the writes.
    pub open spec fn active(self) -> SegmentView {
        self.segments.last()
    }
}

/// The segments of a directory together with the journal of changes that
/// the files of the directory have not seen yet.
pub struct FileStore {
    segments: Vec<Segment>,
    threshold: u64,
    journal: Vec<DiskOp>,
    disk: Ghost<Disk>,
}

/// The views of a list of segments.
pub open spec fn views(segments: Seq<Segment>) -> Seq<SegmentView> {
    Seq::new(segments.len(), |i: int| segments[i]@)
}

/// The views of a list of changes.
pub open spec fn op_views(ops: Seq<DiskOp>) -> Seq<DiskOpView> {
    Seq::new(ops.len(), |i: int| ops[i]@)
}

impl View for FileStore {
    type V = FileStoreView;

    closed spec fn view(&self) -> FileStoreView {
        FileStoreView {
            segments: views(self.segments@),
            threshold: self.threshold,
            journal: op_views(self.journal@),
            disk: self.disk@,
        }
    }
}

/// The log grows by the records of a segment that is added behind the others.
pub proof fn lemma_log_of_push(segments: Seq<SegmentView>, seg: SegmentView)
    ensures
        log_of(segments.push(seg)) == log_of(segments) + seg.entries,
{
    assert(segments.push(seg).drop_last() =~= segments);
}

/// The log of segments in a row is the log of the first ones followed by
/// the log of the others.
pub proof fn lemma_log_of_concat(x: Seq<SegmentView>, y: Seq<SegmentView>)
    ensures
        log_of(x + y) == log_of(x) + log_of(y),
    decreases y.len(),
{
    if y.len() == 0 {
        assert(x + y =~= x);
        assert(log_of(x) + log_of(y) =~= log_of(x));
    } else {
        assert((x + y).drop_last() =~= x + y.drop_last());
        lemma_log_of_concat(x, y.drop_last());
        assert(log_of(x + y) =~= log_of(x) + log_of(y));
    }
}

/// Every record of the log lies in one of the segments.
pub proof fn lemma_log_entry(segments: Seq<SegmentView>, i: int) -> (at: (int, int))
    requires
        0 <= i < log_of(segments).len(),
    ensures
        0 <= at.0 < segments.len(),
        0 <= at.1 < segments[at.0].entries.len(),
        segments[at.0].entries[at.1] == log_of(segments)[i],
    decreases segments.len(),
{
    let before = log_of(segments.drop_last());
    if i < before.len() {
        lemma_log_entry(segments.drop_last(), i)
    } else {
        (segments.len() - 1, i - before.len())
    }
}

/// The directory of some segments holds each of them under its number,
/// and nothing else.
pub proof fn lemma_image(segments: Seq<SegmentView>)
    requires
        ascending(segments),
    ensures
        forall|i: int|
            0 <= i < segments.len() ==> image(segments).contains_key((#[trigger] segments[i]).num)
                && image(segments)[segments[i].num] == segments[i].data,
        forall|n: u64|
            image(segments).contains_key(n) ==> exists|i: int|
                0 <= i < segments.len() && (#[trigger] segments[i]).num == n,
    decreases segments.len(),
{
    if segments.len() > 0 {
        let front = segments.drop_last();
        assert forall|i: int, j: int| 0 <= i < j < front.len() implies (#[trigger] front[i]).num < (
        #[trigger] front[j]).num by {
            assert(segments[i].num < segments[j].num);
        }
        lemma_image(front);
        assert forall|i: int| 0 <= i < segments.len() implies image(segments).contains_key(
            (#[trigger] segments[i]).num,
        ) && image(segments)[segments[i].num] == segments[i].data by {
            if i < segments.len() - 1 {
                assert(front[i] == segments[i]);
                assert(segments[i].num < segments[segments.len() - 1].num);
            }
        }
        assert forall|n: u64| image(segments).contains_key(n) implies exists|i: int|
            0 <= i < segments.len() && (#[trigger] segments[i]).num == n by {
            if n == segments.last().num {
                assert(segments[segments.len() - 1].num == n);
            } else {
                assert(image(front).contains_key(n));
                let i = choose|i: int| 0 <= i < front.len() && (#[trigger] front[i]).num == n;
                assert(segments[i].num == n);
            }
        }
    }
}

impl FileStoreView {
    /// Whether the segment that takes the writes has reached the threshold.
    pub open spec fn is_full(self) -> bool {
        self.active().data.len() >= self.threshold
    }

    /// The file store after a new segment has taken over the writes.
    pub open spec fn rolled(self) -> FileStoreView {
        let num = (self.active().num + 1) as u64;
        FileStoreView {
            segments: self.segments.push(
                SegmentView { num, data: Seq::empty(), entries: Seq::empty() },
            ),
            journal: self.journal.push(DiskOpView::Create { file_num: num }),
            ..self
        }
    }

    /// Where the next record will lie.
    pub open spec fn next_position(self, len: nat) -> CommandPosition {
        CommandPosition {
            file_num: self.active().num,
            pos: self.active().data.len() as u64,
            len: len as u64,
        }
    }

    /// The file store after a record that holds `cmd` has been appended.
    pub open spec fn appended(self, cmd: crate::command::CommandView, record: Seq<u8>) -> FileStoreView {
        let active = self.active();
        FileStoreView {
            segments: self.segments.drop_last().push(
                SegmentView {
                    num: active.num,
                    data: active.data + record,
                    entries: active.entries.push(
                        Entry { cmd, at: self.next_position(record.len()) },
                    ),
                },
            ),
            journal: self.journal.push(DiskOpView::Append { file_num: active.num, data: record }),
            ..self
        }
    }

    /// Whether the next record goes to a new segment: the active one is
    /// full, and a higher number exists.
    pub open spec fn rolls(self) -> bool {
        self.is_full() && self.active().num < u64::MAX
    }

    /// The file store as it is ready for the next record: with a new
    /// segment where the active one is full.
    pub open spec fn ready(self) -> FileStoreView {
        if self.rolls() {
            self.rolled()
        } else {
            self
        }
    }

    /// Whether the file store can take the record of `cmd`: whether the
    /// command can be written.
    pub open spec fn accepts(self, cmd: crate::command::CommandView) -> bool {
        encodable(cmd)
    }

    /// The file store after the record of `cmd` has been written.
    pub open spec fn written(self, cmd: crate::command::CommandView) -> FileStoreView {
        self.ready().appended(cmd, record_bytes(cmd)->0)
    }

    /// Whether a segment with this number exists.
    pub open spec fn has_segment(self, num: u64) -> bool {
        image(self.segments).contains_key(num)
    }

    /// The bytes at a position, where the segment exists and holds them.
    pub open spec fn bytes_at(self, at: CommandPosition) -> Option<Seq<u8>> {
        if self.has_segment(at.file_num) && at.pos + at.len <= image(self.segments)[at.file_num].len() {
            Some(image(self.segments)[at.file_num].subrange(at.pos as int, at.pos + at.len))
        } else {
            None
        }
    }

    /// The command of the record that takes exactly the bytes at a position.
    pub open spec fn command_at(self, at: CommandPosition) -> Option<crate::command::CommandView> {
        match self.bytes_at(at) {
            Some(bytes) => match parse_at(bytes, 0) {
                Parse::Record { cmd, len } => if len == bytes.len() {
                    Some(cmd)
                } else {
                    None
                },
                _ => None,
            },
            None => None,
        }
    }
}

/// A new segment behind the others keeps the file store in order.
pub proof fn lemma_rolled(store: FileStoreView)
    requires
        store.wf(),
        store.active().num < u64::MAX,
    ensures
        store.rolled().wf(),
        store.rolled().log() == store.log(),
        store.tiled() ==> store.rolled().tiled(),
        !store.rolled().is_full() || store.threshold == 0,
{
    let next = store.rolled();
    let fresh = next.segments.last();
    assert(next.segments.drop_last() =~= store.segments);
    assert(next.journal.drop_last() =~= store.journal);
    assert forall|i: int, j: int| 0 <= i < j < next.segments.len() implies (
    #[trigger] next.segments[i]).num < (#[trigger] next.segments[j]).num by {
        if j == next.segments.len() - 1 {
            if i < store.segments.len() - 1 {
                assert(store.segments[i].num < store.segments[store.segments.len() - 1].num);
            }
        } else {
            assert(store.segments[i].num < store.segments[j].num);
        }
    }
    assert(log_of(next.segments) =~= log_of(store.segments));
    if store.tiled() {
        assert forall|i: int| 0 <= i < next.segments.len() implies (
        #[trigger] next.segments[i]).tiled() by {
            if i < store.segments.len() {
                assert(store.segments[i].tiled());
            }
        }
    }
}

/// A record appended to the active segment keeps the file store in order,
/// and becomes the last record of the log.
pub proof fn lemma_appended(store: FileStoreView, cmd: crate::command::CommandView, record: Seq<u8>)
    requires
        store.tiled(),
        parse_at(record, 0) == (Parse::Record { cmd, len: record.len() }),
        store.active().data.len() + record.len() <= u64::MAX,
    ensures
        store.appended(cmd, record).tiled(),
        store.appended(cmd, record).log() == store.log().push(
            Entry { cmd, at: store.next_position(record.len()) },
        ),
{
    let next = store.appended(cmd, record);
    let last = store.segments.len() - 1;
    assert(next.segments.drop_last() =~= store.segments.drop_last());
    assert(next.journal.drop_last() =~= store.journal);
    assert forall|i: int, j: int| 0 <= i < j < next.segments.len() implies (
    #[trigger] next.segments[i]).num < (#[trigger] next.segments[j]).num by {
        assert(store.segments[i].num < store.segments[j].num);
    }
    assert(image(next.segments) =~= run(next.disk, next.journal)) by {
        assert(image(store.segments).contains_key(store.active().num));
    }
    assert(store.segments[last].tiled());
    crate::wal::lemma_tiles_push(store.active(), record);
    assert forall|i: int| 0 <= i < next.segments.len() implies (#[trigger] next.segments[i]).tiled() by {
        if i < last {
            assert(store.segments[i].tiled());
        }
    }
    assert(log_of(next.segments) =~= log_of(store.segments).push(
        Entry { cmd, at: store.next_position(record.len()) },
    ));
}

/// A segment that is put into a list comes to stand at the place behind
/// which no number is smaller, and before which the number is smaller.
pub proof fn lemma_put_in(list: Seq<SegmentView>, seg: SegmentView, at: int)
    requires
        0 <= at <= list.len(),
        forall|j: int| at <= j < list.len() ==> (#[trigger] list[j]).num >= seg.num,
        at > 0 ==> list[at - 1].num < seg.num,
    ensures
        put_in(list, seg) == list.insert(at, seg),
    decreases list.len() - at,
{
    if at == list.len() {
        assert(list.insert(at, seg) =~= list.push(seg));
    } else {
        assert(list[list.len() - 1].num >= seg.num);
        let front = list.drop_last();
        assert forall|j: int| at <= j < front.len() implies (#[trigger] front[j]).num >= seg.num by {
            assert(list[j].num >= seg.num);
        }
        lemma_put_in(front, seg, at);
        assert(list.insert(at, seg) =~= front.insert(at, seg).push(list.last()));
    }
}

/// Numbers that grow from each segment to the next grow along the whole list.
pub proof fn lemma_ascending(segments: Seq<SegmentView>, i: int, j: int)
    requires
        forall|k: int| 0 <= k < segments.len() - 1 ==> (#[trigger] segments[k]).num < segments[k + 1].num,
        0 <= i < j < segments.len(),
    ensures
        segments[i].num < segments[j].num,
    decreases j - i,
{
    assert(segments[j - 1].num < segments[j].num);
    if i < j - 1 {
        lemma_ascending(segments, i, j - 1);
    }
}

/// A record of the log is read again from the place that the log gives it.
pub proof fn lemma_command_at(store: FileStoreView, i: int)
    requires
        store.tiled(),
        0 <= i < store.log().len(),
    ensures
        store.command_at(store.log()[i].at) == Some(store.log()[i].cmd),
        store.has_segment(store.log()[i].at.file_num),
{
    let e = store.log()[i];
    let (s, j) = lemma_log_entry(store.segments, i);
    let seg = store.segments[s];
    assert(seg.tiled());
    assert(crate::log::placed(seg.num, seg.data, seg.entries, j));
    lemma_image(store.segments);
    let p = e.at.pos as int;
    let n = e.at.len as int;
    let bytes = seg.data.subrange(p, p + n);
    assert(bytes.subrange(0, n) =~= bytes);
    lemma_record_window(seg.data, p, bytes, 0);
}

/// The directory follows a segment that is put in the place of another
/// with the same number.
pub proof fn lemma_image_update(segments: Seq<SegmentView>, i: int, seg: SegmentView)
    requires
        ascending(segments),
        0 <= i < segments.len(),
        seg.num == segments[i].num,
    ensures
        ascending(segments.update(i, seg)),
        image(segments.update(i, seg)) == image(segments).insert(seg.num, seg.data),
{
    let next = segments.update(i, seg);
    assert forall|a: int, b: int| 0 <= a < b < next.len() implies (#[trigger] next[a]).num < (
    #[trigger] next[b]).num by {
        assert(segments[a].num < segments[b].num);
    }
    lemma_image(segments);
    lemma_image(next);
    let left = image(next);
    let right = image(segments).insert(seg.num, seg.data);
    assert forall|n: u64| #[trigger]
        left.dom().contains(n) == right.dom().contains(n) && (left.dom().contains(n) ==> left[n]
            == right[n]) by {
        if left.dom().contains(n) {
            let j = choose|j: int| 0 <= j < next.len() && (#[trigger] next[j]).num == n;
            assert(segments[j].num == n);
        }
        if right.dom().contains(n) && n != seg.num {
            let j = choose|j: int| 0 <= j < segments.len() && (#[trigger] segments[j]).num == n;
            assert(next[j].num == n);
        }
        if n == seg.num {
            assert(next[i].num == n);
        }
    }
    assert(left =~= right);
}

/// The directory follows a segment that is taken away.
pub proof fn lemma_image_remove(segments: Seq<SegmentView>, i: int)
    requires
        ascending(segments),
        0 <= i < segments.len(),
    ensures
        ascending(segments.remove(i)),
        image(segments.remove(i)) == image(segments).remove(segments[i].num),
{
    let next = segments.remove(i);
    assert forall|a: int, b: int| 0 <= a < b < next.len() implies (#[trigger] next[a]).num < (
    #[trigger] next[b]).num by {
        let a0 = if a < i { a } else { a + 1 };
        let b0 = if b < i { b } else { b + 1 };
        assert(segments[a0].num < segments[b0].num);
    }
    lemma_image(segments);
    lemma_image(next);
    let left = image(next);
    let right = image(segments).remove(segments[i].num);
    assert forall|n: u64| #[trigger]
        left.dom().contains(n) == right.dom().contains(n) && (left.dom().contains(n) ==> left[n]
            == right[n]) by {
        if left.dom().contains(n) {
            let j = choose|j: int| 0 <= j < next.len() && (#[trigger] next[j]).num == n;
            let j0 = if j < i { j } else { j + 1 };
            assert(segments[j0].num == n);
            if j0 < i {
                assert(segments[j0].num < segments[i].num);
            } else {
                assert(segments[i].num < segments[j0].num);
            }
        }
        if right.dom().contains(n) {
            let j = choose|j: int| 0 <= j < segments.len() && (#[trigger] segments[j]).num == n;
            let j1 = if j < i { j } else { j - 1 };
            assert(next[j1].num == n);
        }
    }
    assert(left =~= right);
}

impl FileStore {
    /// What a file store for an empty directory is: one empty segment with
    /// the number 0, which is still to be created.
    pub open spec fn new_view(threshold: u64) -> FileStoreView {
        FileStoreView {
            segments: seq![SegmentView { num: 0, data: Seq::empty(), entries: Seq::empty() }],
            threshold,
            journal: seq![DiskOpView::Create { file_num: 0 }],
            disk: Map::empty(),
        }
    }

    /// A file store for an empty directory.
    pub fn new(threshold: u64) -> (store: FileStore)
        ensures
            store@.tiled(),
            store@ == Self::new_view(threshold),
            store@.log() == Seq::<Entry>::empty(),
    {
        let mut segments: Vec<Segment> = Vec::new();
        segments.push(Segment::new(0));
        let mut journal: Vec<DiskOp> = Vec::new();
        journal.push(DiskOp::Create { file_num: 0 });
        let store = FileStore { segments, threshold, journal, disk: Ghost(Map::empty()) };
        proof {
            let first = SegmentView { num: 0, data: Seq::empty(), entries: Seq::empty() };
            assert(store@.segments =~= seq![first]);
            assert(store@.journal =~= seq![DiskOpView::Create { file_num: 0 }]);
            assert(store@.segments.drop_last() =~= Seq::empty());
            assert(store@.journal.drop_last() =~= Seq::empty());
            assert(image(store@.segments.drop_last()) =~= Map::empty());
            assert(run(store@.disk, store@.journal.drop_last()) =~= Map::empty());
            assert(image(store@.segments) =~= run(store@.disk, store@.journal));
            assert(log_of(store@.segments.drop_last()) =~= Seq::<Entry>::empty());
            assert(log_of(store@.segments) =~= Seq::<Entry>::empty());
        }
        store
    }

    /// What opening a directory with these segments gives: the segments
    /// themselves, or a first segment where there is none.
    pub open spec fn opened(segments: Seq<SegmentView>, threshold: u64) -> FileStoreView {
        if segments.len() == 0 {
            Self::new_view(threshold)
        } else {
            FileStoreView { segments, threshold, journal: Seq::empty(), disk: image(segments) }
        }
    }

    /// Puts a segment into a list behind the last one with a smaller number.
    fn insert_segment(list: &mut Vec<Segment>, seg: Segment)
        ensures
            views(final(list)@) == put_in(views(old(list)@), seg@),
    {
        let mut at: usize = list.len();
        while at > 0 && list[at - 1].num() >= seg.num()
            invariant
                at <= list@.len(),
                forall|j: int| at <= j < list@.len() ==> (#[trigger] views(list@)[j]).num >= seg@.num,
            decreases at,
        {
            at -= 1;
        }
        proof {
            lemma_put_in(views(list@), seg@, at as int);
        }
        list.insert(at, seg);
        proof {
            assert(views(list@) =~= views(old(list)@).insert(at as int, seg@));
        }
    }

    /// Opens the directory that holds `files`, each given by its name and
    /// its bytes.  The files named `kvs_<N>.wal` are its segments, in the
    /// order of their numbers; the last takes the writes.  A directory
    /// without segments gets the segment 0.  `InternalError` where two
    /// files have the same number.
    pub fn open_with(files: Vec<(String, Vec<u8>)>, threshold: u64) -> (r: Result<
        FileStore,
        KvsError,
    >)
        ensures
            match r {
                Ok(store) => ascending(arrange(file_views(files@))) && store@ == Self::opened(
                    arrange(file_views(files@)),
                    threshold,
                ) && store@.wf(),
                Err(e) => !ascending(arrange(file_views(files@))) && e is InternalError,
            },
    {
        let ghost all = file_views(files@);
        let mut left = files;
        proof {
            assert(file_views(left@) =~= all.take(left@.len() as int));
        }
        let mut segments: Vec<Segment> = Vec::new();
        proof {
            assert(all.skip(all.len() as int) =~= Seq::empty());
        }
        while left.len() > 0
            invariant
                left@.len() <= all.len(),
                file_views(left@) == all.take(left@.len() as int),
                views(segments@) == arrange(all.skip(left@.len() as int)),
            decreases left@.len(),
        {
            let ghost k = left@.len() as int;
            let ghost before = left@;
            let (name, data) = left.pop().unwrap();
            proof {
                assert(file_views(left@) =~= all.take(k - 1));
                assert(file_views(before)[k - 1] == all[k - 1]);
                assert(all.skip(k - 1).drop_first() =~= all.skip(k));
                assert(all.skip(k - 1)[0] == (name@, data@));
            }
            match wal_file_number(name.as_str()) {
                Some(num) => {
                    Self::insert_segment(&mut segments, Segment::from_bytes(num, data));
                },
                None => {},
            }
        }
        proof {
            assert(all.skip(0) =~= all);
        }
        if segments.len() == 0 {
            return Ok(FileStore::new(threshold));
        }
        let mut i: usize = 0;
        while i < segments.len() - 1
            invariant
                segments@.len() > 0,
                i <= segments@.len() - 1,
                all == file_views(files@),
                views(segments@) == arrange(all),
                forall|k: int| 0 <= k < i ==> (#[trigger] views(segments@)[k]).num < views(
                    segments@,
                )[k + 1].num,
            decreases segments@.len() - i,
        {
            if segments[i].num() >= segments[i + 1].num() {
                proof {
                    let list = arrange(all);
                    assert(list[i as int].num >= list[i + 1].num);
                }
                return Err(KvsError::InternalError);
            }
            i += 1;
        }
        proof {
            let list = views(segments@);
            assert forall|a: int, b: int| 0 <= a < b < list.len() implies (#[trigger] list[a]).num < (
            #[trigger] list[b]).num by {
                lemma_ascending(list, a, b);
            }
        }
        let store = FileStore {
            segments,
            threshold,
            journal: Vec::new(),
            disk: Ghost(image(arrange(all))),
        };
        proof {
            assert(store@.journal =~= Seq::empty());
        }
        Ok(store)
    }

    /// Opens the directory that holds `files` with segments of the usual size.
    pub fn open(files: Vec<(String, Vec<u8>)>) -> (r: Result<FileStore, KvsError>)
        ensures
            match r {
                Ok(store) => ascending(arrange(file_views(files@))) && store@ == Self::opened(
                    arrange(file_views(files@)),
                    DEFAULT_FILE_CAPACITY,
                ) && store@.wf(),
                Err(e) => !ascending(arrange(file_views(files@))) && e is InternalError,
            },
    {
        Self::open_with(files, DEFAULT_FILE_CAPACITY)
    }

    /// Takes `entries` as the records of segment `i`, which were read up
    /// to `end`, and cuts off the bytes behind them.
    pub(crate) fn settle_segment(&mut self, i: usize, end: u64, Ghost(entries): Ghost<Seq<Entry>>)
        requires
            old(self)@.wf(),
            i < old(self)@.segments.len(),
            crate::wal::reads_to(
                old(self)@.segments[i as int].num,
                old(self)@.segments[i as int].data,
                entries,
                end as int,
            ),
        ensures
            final(self)@ == (FileStoreView {
                segments: old(self)@.segments.update(
                    i as int,
                    SegmentView {
                        num: old(self)@.segments[i as int].num,
                        data: old(self)@.segments[i as int].data.take(end as int),
                        entries,
                    },
                ),
                journal: if end < old(self)@.segments[i as int].data.len() {
                    old(self)@.journal.push(
                        DiskOpView::Truncate { file_num: old(self)@.segments[i as int].num, len: end },
                    )
                } else {
                    old(self)@.journal
                },
                ..old(self)@
            }),
            final(self)@.wf(),
            final(self)@.segments[i as int].tiled(),
    {
        let ghost before = self@;
        let mut seg = self.segments.remove(i);
        let torn = end < seg.pos();
        let num = seg.num();
        seg.settle(end, Ghost(entries));
        proof {
            lemma_image(before.segments);
            lemma_image_update(before.segments, i as int, seg@);
            assert(before.segments[i as int].data.take(end as int) =~= seg@.data);
        }
        self.segments.insert(i, seg);
        if torn {
            self.journal.push(DiskOp::Truncate { file_num: num, len: end });
        }
        proof {
            let next = before.segments.update(i as int, seg@);
            assert(self@.segments =~= next);
            if torn {
                let op = DiskOpView::Truncate { file_num: num, len: end };
                assert(self@.journal =~= before.journal.push(op));
                assert(self@.journal.drop_last() =~= before.journal);
                assert(image(next) =~= apply(image(before.segments), op));
            } else {
                assert(self@.journal =~= before.journal);
                assert(seg@.data =~= before.segments[i as int].data);
                assert(image(next) =~= image(before.segments));
            }
        }
    }

    /// The number of the segment that takes the writes.
    pub fn current_file_num(&self) -> (num: u64)
        requires
            self@.wf(),
        ensures
            num == self@.active().num,
    {
        self.segments[self.segments.len() - 1].num()
    }

    /// The number of segments.
    pub fn segment_count(&self) -> (count: usize)
        ensures
            count == self@.segments.len(),
    {
        self.segments.len()
    }

    /// The segment at place `i` in the order of the numbers.
    pub fn segment(&self, i: usize) -> (seg: &Segment)
        requires
            i < self@.segments.len(),
        ensures
            seg@ == self@.segments[i as int],
    {
        &self.segments[i]
    }

    /// The files of the directory as the store has them: the name and the
    /// bytes of each segment.
    pub fn files(&self) -> (files: Vec<(String, Vec<u8>)>)
        ensures
            file_views(files@) == files_of(self@.segments),
    {
        let mut list: Vec<(String, Vec<u8>)> = Vec::new();
        let mut i: usize = 0;
        while i < self.segments.len()
            invariant
                i <= self.segments@.len(),
                file_views(list@) == files_of(self@.segments.take(i as int)),
            decreases self.segments@.len() - i,
        {
            let seg = &self.segments[i];
            let ghost before = list@;
            list.push((wal_file_name(seg.num()), seg.to_vec()));
            proof {
                let now = file_views(list@);
                let goal = files_of(self@.segments.take(i + 1));
                assert(file_views(before).len() == before.len());
                assert(files_of(self@.segments.take(i as int)).len() == i);
                assert(now.len() == list@.len());
                assert(goal.len() == i + 1);
                assert forall|j: int| 0 <= j < now.len() implies now[j] == goal[j] by {
                    if j < i {
                        assert(file_views(before)[j] == files_of(self@.segments.take(i as int))[j]);
                        assert(list@[j] == before[j]);
                    }
                }
                assert(now =~= goal);
            }
            i += 1;
        }
        proof {
            assert(self@.segments.take(i as int) =~= self@.segments);
        }
        list
    }

    /// The changes that the files have not seen yet.  They are handed out
    /// once: after the call the journal is empty, and the files are taken to
    /// hold what the segments hold.
    pub fn take_journal(&mut self) -> (ops: Vec<DiskOp>)
        requires
            old(self)@.wf(),
        ensures
            op_views(ops@) == old(self)@.journal,
            final(self)@ == (FileStoreView {
                journal: Seq::empty(),
                disk: image(old(self)@.segments),
                ..old(self)@
            }),
            final(self)@.wf(),
    {
        let mut ops: Vec<DiskOp> = Vec::new();
        std::mem::swap(&mut ops, &mut self.journal);
        self.disk = Ghost(image(self@.segments));
        proof {
            assert(op_views(self.journal@) =~= Seq::empty());
        }
        ops
    }

    /// Puts `fresh` in the place of segment `i`, which is not the active
    /// one and has the same number.
    pub(crate) fn replace_segment(&mut self, i: usize, fresh: Segment)
        requires
            old(self)@.tiled(),
            i + 1 < old(self)@.segments.len(),
            fresh@.num == old(self)@.segments[i as int].num,
            fresh@.tiled(),
        ensures
            final(self)@ == (FileStoreView {
                segments: old(self)@.segments.update(i as int, fresh@),
                journal: old(self)@.journal.push(
                    DiskOpView::Replace { file_num: fresh@.num, data: fresh@.data },
                ),
                ..old(self)@
            }),
            final(self)@.tiled(),
    {
        let op = DiskOp::Replace { file_num: fresh.num(), data: fresh.to_vec() };
        proof {
            lemma_image_update(self@.segments, i as int, fresh@);
        }
        self.segments.set(i, fresh);
        self.journal.push(op);
        proof {
            let next = old(self)@.segments.update(i as int, fresh@);
            assert(self@.segments =~= next);
            assert(self@.journal =~= old(self)@.journal.push(op@));
            assert(self@.journal.drop_last() =~= old(self)@.journal);
            assert forall|j: int| 0 <= j < next.len() implies (#[trigger] next[j]).tiled() by {
                if j != i {
                    assert(old(self)@.segments[j].tiled());
                }
            }
        }
    }

    /// Takes segment `i` away, which is not the active one.
    pub(crate) fn drop_segment(&mut self, i: usize)
        requires
            old(self)@.tiled(),
            i + 1 < old(self)@.segments.len(),
        ensures
            final(self)@ == (FileStoreView {
                segments: old(self)@.segments.remove(i as int),
                journal: old(self)@.journal.push(
                    DiskOpView::Remove { file_num: old(self)@.segments[i as int].num },
                ),
                ..old(self)@
            }),
            final(self)@.tiled(),
    {
        proof {
            lemma_image_remove(self@.segments, i as int);
        }
        let gone = self.segments.remove(i);
        let op = DiskOp::Remove { file_num: gone.num() };
        self.journal.push(op);
        proof {
            let next = old(self)@.segments.remove(i as int);
            assert(self@.segments =~= next);
            assert(self@.journal =~= old(self)@.journal.push(op@));
            assert(self@.journal.drop_last() =~= old(self)@.journal);
            assert forall|j: int| 0 <= j < next.len() implies (#[trigger] next[j]).tiled() by {
                let j0 = if j < i { j } else { j + 1 };
                assert(old(self)@.segments[j0].tiled());
            }
        }
    }

    /// Makes a new segment, numbered one above the active one, the segment
    /// that takes the writes.  `InternalError` where no higher number exists.
    pub fn change_to_new_wal(&mut self) -> (r: Result<(), KvsError>)
        requires
            old(self)@.wf(),
        ensures
            final(self)@.wf(),
            old(self)@.tiled() ==> final(self)@.tiled(),
            match r {
                Ok(()) => old(self)@.active().num < u64::MAX && final(self)@ == old(self)@.rolled(),
                Err(e) => old(self)@.active().num == u64::MAX && final(self)@ == old(self)@ && e
                    is InternalError,
            },
    {
        let current = self.current_file_num();
        if current == u64::MAX {
            return Err(KvsError::InternalError);
        }
        let num: u64 = current + 1;
        proof {
            lemma_rolled(self@);
        }
        self.segments.push(Segment::new(num));
        self.journal.push(DiskOp::Create { file_num: num });
        proof {
            assert(self@.segments =~= old(self)@.rolled().segments);
            assert(self@.journal =~= old(self)@.rolled().journal);
        }
        Ok(())
    }

    /// Appends the record of `cmd` to the active segment, after a change to
    /// a new segment where the active one is full, and says where the
    /// record lies.  Where the active segment has the last number that
    /// there is, it goes on taking the records.  Nothing changes where the
    /// command cannot be written.
    pub fn write_command(&mut self, cmd: Command) -> (r: Result<CommandPosition, KvsError>)
        requires
            old(self)@.tiled(),
        ensures
            final(self)@.tiled(),
            old(self)@.within() ==> final(self)@.within(),
            match r {
                Ok(at) => old(self)@.accepts(cmd@) && final(self)@ == old(self)@.written(cmd@) && at
                    == old(self)@.ready().next_position(record_bytes(cmd@)->0.len())
                    && final(self)@.log() == old(self)@.log().push(Entry { cmd: cmd@, at }),
                Err(e) => !old(self)@.accepts(cmd@) && final(self)@ == old(self)@ && refused(cmd@, e),
            },
    {
        let data = match encode_command(&cmd) {
            Ok(data) => data,
            Err(e) => { return Err(e); },
        };
        let active = &self.segments[self.segments.len() - 1];
        if active.is_full(self.threshold) && active.num() < u64::MAX {
            match self.change_to_new_wal() {
                Ok(()) => {},
                Err(e) => { return Err(e); },
            }
        }
        let ghost ready = self@;
        let mut active = self.segments.pop().unwrap();
        let at = active.append(data.as_slice());
        self.segments.push(active);
        self.journal.push(DiskOp::Append { file_num: at.file_num, data });
        proof {
            lemma_appended(ready, cmd@, data@);
            if old(self)@.rolls() {
                lemma_rolled(old(self)@);
            }
            if old(self)@.within() {
                let log = old(self)@.log();
                let e = Entry { cmd: cmd@, at };
                assert forall|i: int| 0 <= i < log.push(e).len() implies (#[trigger] log.push(
                    e,
                )[i]).at.pos < self.threshold || log.push(e)[i].at.pos == 0 || log.push(
                    e,
                )[i].at.file_num == u64::MAX by {
                    if i < log.len() {
                        assert(log.push(e)[i] == log[i]);
                    }
                }
            }
            assert(self@.segments =~= ready.appended(cmd@, data@).segments);
            assert(self@.journal =~= ready.appended(cmd@, data@).journal);
        }
        Ok(at)
    }

    /// Reads the command whose record takes exactly the bytes at `at`.
    /// `KeyNotFound` where no segment has the number, `Decode` where the
    /// segment does not hold one record in those bytes.
    pub fn read_command_position(&self, at: &CommandPosition) -> (r: Result<Command, KvsError>)
        requires
            self@.wf(),
        ensures
            match r {
                Ok(cmd) => self@.command_at(*at) == Some(cmd@),
                Err(e) => self@.command_at(*at) is None && if self@.has_segment(at.file_num) {
                    e is Decode
                } else {
                    e is KeyNotFound
                },
            },
    {
        let mut i: usize = 0;
        while i < self.segments.len()
            invariant
                self@.wf(),
                i <= self.segments@.len(),
                forall|j: int| 0 <= j < i ==> (#[trigger] self@.segments[j]).num != at.file_num,
            decreases self.segments@.len() - i,
        {
            if self.segments[i].num() == at.file_num {
                proof {
                    lemma_image(self@.segments);
                    assert(self@.segments[i as int].num == at.file_num);
                }
                return match self.segments[i].read(at.pos, at.len) {
                    Some(bytes) => decode_command(bytes),
                    None => Err(KvsError::Decode),
                };
            }
            i += 1;
        }
        proof {
            lemma_image(self@.segments);
        }
        Err(KvsError::KeyNotFound)
    }
}

} // verus!
