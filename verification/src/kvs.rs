//! The storage engine: the log of commands, the index into it, and the
//! compaction that keeps the log short.

use vstd::hash_map::StringHashMap;
use vstd::prelude::*;
use crate::command::{Command, CommandView};
use crate::compaction::{
    all_live, apply_moves, compacted, lemma_compact_progress, lemma_kept_distinct,
    lemma_kept_sound, lemma_log_split, lemma_replay_index, lemma_segment_positions,
    lemma_segment_step, live, replay_index, rewrite, squeeze_all, squeeze_ops, squeezed,
};
use crate::error::KvsError;
use crate::file_store::{
    arrange, ascending, file_views, files_of, lemma_command_at, lemma_log_of_concat,
    lemma_log_of_push, log_of, op_views, starts_within, DiskOp, DiskOpView, FileStore,
    FileStoreView, DEFAULT_FILE_CAPACITY,
};
use crate::log::{
    agrees, all_sound, changed, contents_of, index_of, lemma_contents_push, lemma_index_push,
    lemma_last_put_is_entry, lemma_sound_push, placed, sound, CommandPosition, Entry,
};
use crate::record::{encode_command, record_bytes, refused, same_text};
use crate::replay::{
    lemma_loaded_readable, lemma_loaded_unique, loaded, read_from, replayed, unreadable,
    unwritable,
};
use crate::wal::{entries_of, reads_to, Tail};

verus! {

/// The number of changes after which the log is compacted, unless another
/// is asked for.
pub const DEFAULT_COMPACT_COUNT: u64 = 1000;

/// What a store is.
pub struct KvStoreView {
    /// The segments.
    pub files: FileStoreView,
    /// For each live key, the place of the record that holds its value.
    pub index: Map<Seq<char>, CommandPosition>,
    /// The number of changes since the last compaction.
    pub counter: u64,
    /// The number of changes after which the log is compacted.
    pub compact_count: u64,
}

impl KvStoreView {
    /// Whether the segments hold whole records as this library writes them,
    /// the index is the one that replaying them gives, and the counter has
    /// not reached the number at which the log is compacted.
    pub open spec fn wf(self) -> bool {
        &&& self.files.tiled()
        &&& all_sound(self.files.log())
        &&& index_of(self.index, self.files.log())
        &&& (self.counter < self.compact_count || self.counter == 0)
    }

    /// The keys of the store with their values.
    pub open spec fn contents(self) -> Map<Seq<char>, Seq<char>> {
        contents_of(self.files.log())
    }

    /// Whether the next change is followed by a compaction.
    pub open spec fn due(self) -> bool {
        self.counter + 1 >= self.compact_count
    }

    /// Whether `next` is this store after a change that left the segments
    /// `written` and the index `index`: the change is counted, and where
    /// the count has reached the number at which the log is compacted, the
    /// count starts again and the log has been compacted.  The index of
    /// `next` is the one of its log in either case.
    pub open spec fn counted(
        self,
        written: FileStoreView,
        index: Map<Seq<char>, CommandPosition>,
        next: KvStoreView,
    ) -> bool {
        &&& next.compact_count == self.compact_count
        &&& if self.due() {
            &&& next.counter == 0
            &&& squeezed(next.files, next.index)
            &&& next.files == (FileStoreView {
                segments: compacted(written.segments, index),
                journal: written.journal + squeeze_ops(written.segments.drop_last(), index),
                ..written
            })
        } else {
            &&& next.counter == self.counter + 1
            &&& next.files == written
            &&& next.index == index
        }
    }
}

/// A key/value store that keeps its data in a log of commands.
pub struct KvStore {
    file_store: FileStore,
    index: StringHashMap<CommandPosition>,
    compact_counter: u64,
    compact_count: u64,
}

impl View for KvStore {
    type V = KvStoreView;

    closed spec fn view(&self) -> KvStoreView {
        KvStoreView {
            files: self.file_store@,
            index: self.index@,
            counter: self.compact_counter,
            compact_count: self.compact_count,
        }
    }
}

/// A key is in the index exactly where it has a value, and the record that
/// the index names for it holds that value.
pub proof fn lemma_index_entry(store: KvStoreView, key: Seq<char>)
    requires
        store.wf(),
    ensures
        store.index.contains_key(key) == store.contents().contains_key(key),
        store.index.contains_key(key) ==> store.files.command_at(store.index[key]) == Some(
            CommandView::Put { key, value: store.contents()[key] },
        ),
{
    let log = store.files.log();
    assert(agrees(store.index, log, key));
    if store.index.contains_key(key) {
        let i = lemma_last_put_is_entry(log, key);
        lemma_command_at(store.files, i);
    }
}

impl KvStore {
    /// What holds of every store: see `KvStoreView::wf`.
    #[verifier::type_invariant]
    spec fn inv(self) -> bool {
        self@.wf()
    }

    /// Appends the record of `cmd` to the log and lets the index follow.
    /// Nothing changes where the record cannot be written.
    fn record(
        file_store: &mut FileStore,
        index: &mut StringHashMap<CommandPosition>,
        cmd: Command,
    ) -> (r: Result<(), KvsError>)
        requires
            old(file_store)@.tiled(),
            all_sound(old(file_store)@.log()),
            index_of(old(index)@, old(file_store)@.log()),
        ensures
            final(file_store)@.tiled(),
            all_sound(final(file_store)@.log()),
            index_of(final(index)@, final(file_store)@.log()),
            old(file_store)@.within() ==> final(file_store)@.within(),
            match r {
                Ok(()) => {
                    &&& old(file_store)@.accepts(cmd@)
                    &&& final(file_store)@ == old(file_store)@.written(cmd@)
                    &&& final(index)@ == Self::indexed(old(index)@, old(file_store)@, cmd@)
                    &&& contents_of(final(file_store)@.log()) == changed(
                        contents_of(old(file_store)@.log()),
                        cmd@,
                    )
                },
                Err(e) => {
                    &&& !old(file_store)@.accepts(cmd@)
                    &&& final(file_store)@ == old(file_store)@
                    &&& final(index)@ == old(index)@
                    &&& refused(cmd@, e)
                },
            },
    {
        let key = cmd.get_key().clone();
        let is_put = match &cmd {
            Command::Put { .. } => true,
            Command::Del { .. } => false,
        };
        let ghost e = Entry {
            cmd: cmd@,
            at: file_store@.ready().next_position(record_bytes(cmd@)->0.len()),
        };
        let at = match file_store.write_command(cmd) {
            Ok(at) => at,
            Err(e) => { return Err(e); },
        };
        if is_put {
            index.insert(key, at);
        } else {
            index.remove(key.as_str());
        }
        proof {
            lemma_index_push(old(index)@, old(file_store)@.log(), e);
            lemma_contents_push(old(file_store)@.log(), e);
            lemma_sound_push(old(file_store)@.log(), e);
        }
        Ok(())
    }

    /// The index after the record of `cmd` has been written to `files`.
    pub open spec fn indexed(
        index: Map<Seq<char>, CommandPosition>,
        files: FileStoreView,
        cmd: CommandView,
    ) -> Map<Seq<char>, CommandPosition> {
        match cmd {
            CommandView::Put { key, .. } => index.insert(
                key,
                files.ready().next_position(record_bytes(cmd)->0.len()),
            ),
            CommandView::Del { key } => index.remove(key),
        }
    }

    /// Rewrites every segment but the active one so that it holds its live
    /// records only, and moves the index to the new records.  A segment
    /// without live records is taken away.
    fn compact(file_store: &mut FileStore, index: &mut StringHashMap<CommandPosition>)
        requires
            old(file_store)@.tiled(),
            all_sound(old(file_store)@.log()),
            index_of(old(index)@, old(file_store)@.log()),
        ensures
            final(file_store)@.tiled(),
            all_sound(final(file_store)@.log()),
            index_of(final(index)@, final(file_store)@.log()),
            contents_of(final(file_store)@.log()) == contents_of(old(file_store)@.log()),
            squeezed(final(file_store)@, final(index)@),
            final(file_store)@ == (FileStoreView {
                segments: compacted(old(file_store)@.segments, old(index)@),
                journal: old(file_store)@.journal + squeeze_ops(
                    old(file_store)@.segments.drop_last(),
                    old(index)@,
                ),
                ..old(file_store)@
            }),
            old(file_store)@.within() ==> final(file_store)@.within(),
    {
        let mut i: usize = 0;
        let ghost origin = file_store@.segments;
        let ghost mut k: int = 0;
        proof {
            assert(origin.take(0) =~= Seq::empty());
            assert(origin.skip(0) =~= origin);
            assert(old(file_store)@.journal + squeeze_ops(origin.take(0), index@)
                =~= file_store@.journal);
        }
        while i < file_store.segment_count() - 1
            invariant
                file_store@.tiled(),
                all_sound(file_store@.log()),
                index_of(index@, file_store@.log()),
                contents_of(file_store@.log()) == contents_of(old(file_store)@.log()),
                i < file_store@.segments.len(),
                all_live(index@, log_of(file_store@.segments.take(i as int))),
                forall|s: int| 0 <= s < i ==> (#[trigger] file_store@.segments[s]).entries.len() > 0,
                origin == old(file_store)@.segments,
                0 <= k < origin.len(),
                file_store@.segments.len() - i == origin.len() - k,
                file_store@.segments.take(i as int) == squeeze_all(origin.take(k), old(index)@),
                file_store@.segments.skip(i as int) == origin.skip(k),
                forall|x: int|
                    0 <= x < log_of(origin.skip(k)).len() ==> live(
                        index@,
                        #[trigger] log_of(origin.skip(k))[x],
                    ) == live(old(index)@, log_of(origin.skip(k))[x]),
                file_store@.journal == old(file_store)@.journal + squeeze_ops(
                    origin.take(k),
                    old(index)@,
                ),
                file_store@.threshold == old(file_store)@.threshold,
                file_store@.disk == old(file_store)@.disk,
                old(file_store)@.within() ==> file_store@.within(),
            decreases file_store@.segments.len() - i,
        {
            let ghost files = file_store@;
            let ghost segments = files.segments;
            let ghost before = index@;
            let ghost done = log_of(segments.take(i as int));
            let ghost rest = log_of(segments.skip(i + 1));
            let ghost old_entries = segments[i as int].entries;
            proof {
                lemma_log_split(segments, i as int);
                assert(segments[i as int].tiled());
                assert forall|j: int| 0 <= j < old_entries.len() implies sound(
                    #[trigger] old_entries[j],
                ) by {
                    assert(files.log()[done.len() + j] == old_entries[j]);
                }
            }
            let (fresh, moved, Ghost(src)) = rewrite(file_store.segment(i), &*index);
            let ghost kept = fresh@.entries;
            proof {
                lemma_segment_positions(segments[i as int]);
                assert forall|t: int, u: int| 0 <= t < u < kept.len() implies (
                #[trigger] kept[t]).cmd.key() != (#[trigger] kept[u]).cmd.key() by {
                    lemma_kept_distinct(before, old_entries, kept, src, t, u);
                }
            }
            apply_moves(index, &moved, Ghost(kept));
            proof {
                lemma_segment_step(segments, before, index@, i as int, fresh@, src);
                lemma_kept_sound(done, old_entries, rest, kept, src, files.threshold);
                lemma_compact_progress(
                    origin,
                    old(index)@,
                    k,
                    segments,
                    i as int,
                    before,
                    index@,
                    fresh@,
                    src,
                );
                assert(files.journal.push(
                    if kept.len() > 0 {
                        DiskOpView::Replace { file_num: fresh@.num, data: fresh@.data }
                    } else {
                        DiskOpView::Remove { file_num: fresh@.num }
                    },
                ) =~= old(file_store)@.journal + squeeze_ops(origin.take(k + 1), old(index)@)) by {
                    assert(files.journal == old(file_store)@.journal + squeeze_ops(
                        origin.take(k),
                        old(index)@,
                    ));
                }
                k = k + 1;
            }
            if fresh.pos() == 0 {
                proof {
                    if kept.len() > 0 {
                        assert(placed(fresh@.num, fresh@.data, kept, 0));
                    }
                    let next = segments.remove(i as int);
                    assert(next =~= segments.take(i as int) + segments.skip(i + 1));
                    lemma_log_of_concat(segments.take(i as int), segments.skip(i + 1));
                    assert(done + kept + rest =~= done + rest);
                    assert(next.take(i as int) =~= segments.take(i as int));
                }
                file_store.drop_segment(i);
            } else {
                proof {
                    let next = segments.update(i as int, fresh@);
                    lemma_log_split(next, i as int);
                    assert(next.take(i as int) =~= segments.take(i as int));
                    assert(next.skip(i + 1) =~= segments.skip(i + 1));
                    assert(next.take(i + 1) =~= segments.take(i as int).push(fresh@));
                    lemma_log_of_push(segments.take(i as int), fresh@);
                }
                file_store.replace_segment(i, fresh);
                i += 1;
            }
        }
        proof {
            let segments = file_store@.segments;
            assert(segments.take(i as int) =~= segments.drop_last());
            assert(segments.skip(i as int).len() == 1);
            assert(origin.skip(k).len() == 1);
            assert(origin.take(k) =~= origin.drop_last());
            assert(segments.skip(i as int)[0] == origin.skip(k)[0]);
            assert(segments =~= compacted(origin, old(index)@));
            assert(old(file_store)@.journal + squeeze_ops(origin.drop_last(), old(index)@)
                =~= file_store@.journal);
        }
    }

    /// Replays the log: reads every segment from its first byte, and
    /// builds the index from the commands in their order.  A record that
    /// was cut off at the end of the last segment is dropped.  `Decode`
    /// where a segment holds other bytes that are no records, or a record
    /// of another length than writing its command gives; the error of
    /// `encode_command` where a command cannot be written again.  The bytes
    /// of the segments stay as they are where the log cannot be replayed.
    fn load(file_store: &mut FileStore) -> (r: Result<StringHashMap<CommandPosition>, KvsError>)
        requires
            old(file_store)@.wf(),
        ensures
            final(file_store)@.wf(),
            final(file_store)@.threshold == old(file_store)@.threshold,
            final(file_store)@.disk == old(file_store)@.disk,
            match r {
                Ok(index) => {
                    &&& loaded(old(file_store)@.segments, final(file_store)@.segments)
                    &&& final(file_store)@.tiled()
                    &&& all_sound(final(file_store)@.log())
                    &&& index_of(index@, final(file_store)@.log())
                    &&& final(file_store)@.journal == if final(file_store)@.active().data.len() < old(
                        file_store,
                    )@.active().data.len() {
                        old(file_store)@.journal.push(
                            DiskOpView::Truncate {
                                file_num: old(file_store)@.active().num,
                                len: final(file_store)@.active().data.len() as u64,
                            },
                        )
                    } else {
                        old(file_store)@.journal
                    }
                },
                Err(e) => {
                    &&& final(file_store)@.journal == old(file_store)@.journal
                    &&& if e is Decode {
                        unreadable(old(file_store)@.segments) || unwritable(
                            old(file_store)@.segments,
                        )
                    } else {
                        unwritable(old(file_store)@.segments) && (e is SerdeJson || e
                            is InternalError)
                    }
                },
            },
    {
        let mut index: StringHashMap<CommandPosition> = StringHashMap::new();
        let ghost start = file_store@;
        let mut i: usize = 0;
        proof {
            assert(start.segments.take(0) =~= Seq::empty());
            assert forall|key: Seq<char>| #[trigger]
                agrees(index@, log_of(start.segments.take(0)), key) by {}
        }
        while i < file_store.segment_count()
            invariant
                start == old(file_store)@,
                start.wf(),
                file_store@.wf(),
                file_store@.threshold == start.threshold,
                file_store@.disk == start.disk,
                i <= file_store@.segments.len(),
                file_store@.segments.len() == start.segments.len(),
                forall|s: int|
                    0 <= s < i ==> (#[trigger] file_store@.segments[s]).tiled() && read_from(
                        start.segments[s],
                        file_store@.segments[s],
                        s == start.segments.len() - 1,
                    ),
                forall|s: int|
                    i <= s < start.segments.len() ==> (#[trigger] file_store@.segments[s])
                        == start.segments[s],
                i < start.segments.len() ==> file_store@.journal == start.journal,
                i == start.segments.len() ==> file_store@.journal == if file_store@.active().data.len()
                    < start.active().data.len() {
                    start.journal.push(
                        DiskOpView::Truncate {
                            file_num: start.active().num,
                            len: file_store@.active().data.len() as u64,
                        },
                    )
                } else {
                    start.journal
                },
                all_sound(log_of(file_store@.segments.take(i as int))),
                index_of(index@, log_of(file_store@.segments.take(i as int))),
            decreases file_store@.segments.len() - i,
        {
            let ghost files = file_store@;
            let ghost done = log_of(files.segments.take(i as int));
            let is_last = i == file_store.segment_count() - 1;
            let scan = file_store.segment(i).scan();
            let ghost entries = entries_of(scan.records@);
            let ghost seg = start.segments[i as int];
            assert(files.segments[i as int] == seg);
            match scan.tail {
                Tail::Clean => {},
                Tail::Torn => {
                    if !is_last {
                        assert(reads_to(seg.num, seg.data, entries, scan.end as int));
                        return Err(KvsError::Decode);
                    }
                },
                Tail::Malformed => {
                    assert(reads_to(seg.num, seg.data, entries, scan.end as int));
                    return Err(KvsError::Decode);
                },
            }
            let mut j: usize = 0;
            proof {
                assert(done + entries.take(0) =~= done);
            }
            while j < scan.records.len()
                invariant
                    j <= scan.records@.len(),
                    entries == entries_of(scan.records@),
                    seg == start.segments[i as int],
                    start == old(file_store)@,
                    0 <= i < start.segments.len(),
                    reads_to(seg.num, seg.data, entries, scan.end as int),
                    all_sound(done + entries.take(j as int)),
                    index_of(index@, done + entries.take(j as int)),
                    file_store@ == files,
                    files.wf(),
                    files.threshold == start.threshold,
                    files.disk == start.disk,
                    files.journal == start.journal,
                decreases scan.records@.len() - j,
            {
                let cmd = &scan.records[j].0;
                let at = scan.records[j].1;
                let ghost e = entries[j as int];
                assert(e == Entry { cmd: cmd@, at });
                match encode_command(cmd) {
                    Ok(again) => {
                        if again.len() as u64 != at.len {
                            assert(!sound(entries[j as int]));
                            return Err(KvsError::Decode);
                        }
                    },
                    Err(e) => {
                        assert(!sound(entries[j as int]));
                        return Err(e);
                    },
                }
                proof {
                    lemma_index_push(index@, done + entries.take(j as int), e);
                    lemma_sound_push(done + entries.take(j as int), e);
                    assert((done + entries.take(j as int)).push(e) =~= done + entries.take(j + 1));
                }
                match cmd {
                    Command::Put { key, .. } => {
                        index.insert(key.clone(), at);
                    },
                    Command::Del { key } => {
                        index.remove(key.as_str());
                    },
                }
                j += 1;
            }
            file_store.settle_segment(i, scan.end, Ghost(entries));
            proof {
                let next = file_store@.segments;
                assert(entries.take(entries.len() as int) =~= entries);
                assert(next.take(i + 1) =~= files.segments.take(i as int).push(next[i as int]));
                lemma_log_of_push(files.segments.take(i as int), next[i as int]);
                assert forall|s: int| 0 <= s < i + 1 implies (#[trigger] next[s]).tiled() && read_from(
                    start.segments[s],
                    next[s],
                    s == start.segments.len() - 1,
                ) by {
                    if s < i {
                        assert(files.segments[s].tiled());
                    }
                }
                assert forall|s: int| i + 1 <= s < start.segments.len() implies (#[trigger] next[s])
                    == start.segments[s] by {
                    assert(files.segments[s] == start.segments[s]);
                }
                if !is_last {
                    assert(seg.data.take(scan.end as int) =~= seg.data);
                }
            }
            i += 1;
        }
        proof {
            assert(file_store@.segments.take(i as int) =~= file_store@.segments);
        }
        Ok(index)
    }

    /// The records that the segment files of a directory hold.
    pub open spec fn directory_log(files: Seq<(Seq<char>, Seq<u8>)>) -> Seq<Entry> {
        log_of(replayed(FileStore::opened(arrange(files), 0).segments))
    }

    /// What opening a directory gives: the keys with their values that the
    /// segment files of the directory hold.
    pub open spec fn directory_contents(files: Seq<(Seq<char>, Seq<u8>)>) -> Map<
        Seq<char>,
        Seq<char>,
    > {
        contents_of(Self::directory_log(files))
    }

    /// The segments and the journal of a store that was opened on a
    /// directory: the segments of the directory, read and compacted; and in
    /// the journal what that did to them.
    pub open spec fn opened_files(files: Seq<(Seq<char>, Seq<u8>)>, file_capacity: u64) -> FileStoreView {
        let start = FileStore::opened(arrange(files), file_capacity);
        let read = replayed(start.segments);
        let index = replay_index(log_of(read));
        let cut = if read.last().data.len() < start.active().data.len() {
            start.journal.push(
                DiskOpView::Truncate {
                    file_num: start.active().num,
                    len: read.last().data.len() as u64,
                },
            )
        } else {
            start.journal
        };
        FileStoreView {
            segments: compacted(read, index),
            journal: cut + squeeze_ops(read.drop_last(), index),
            ..start
        }
    }

    /// Whether a directory can be opened: no two segment files have the
    /// same number, and the segments hold records as this library writes
    /// them.
    pub open spec fn can_open(files: Seq<(Seq<char>, Seq<u8>)>) -> bool {
        &&& ascending(arrange(files))
        &&& !unreadable(FileStore::opened(arrange(files), 0).segments)
        &&& !unwritable(FileStore::opened(arrange(files), 0).segments)
    }

    /// Opens the store on the directory that holds `files`, each given by
    /// its name and its bytes: finds the segments, replays the log, and
    /// compacts it.  Segments stop taking writes at `file_capacity` bytes,
    /// and the log is compacted after every `compact_count` changes.
    pub fn open_with(files: Vec<(String, Vec<u8>)>, file_capacity: u64, compact_count: u64) -> (r:
        Result<KvStore, KvsError>)
        ensures
            match r {
                Ok(store) => {
                    &&& Self::can_open(file_views(files@))
                    &&& store@.wf()
                    &&& store@.contents() == Self::directory_contents(file_views(files@))
                    &&& store@.files == Self::opened_files(file_views(files@), file_capacity)
                    &&& squeezed(store@.files, store@.index)
                    &&& store@.counter == 0
                    &&& store@.compact_count == compact_count
                    &&& starts_within(Self::directory_log(file_views(files@)), file_capacity)
                        ==> store@.files.within()
                },
                Err(e) => !Self::can_open(file_views(files@)) && (e is InternalError || e is Decode
                    || e is SerdeJson),
            },
    {
        let ghost raw = FileStore::opened(arrange(file_views(files@)), 0).segments;
        let mut file_store = match FileStore::open_with(files, file_capacity) {
            Ok(file_store) => file_store,
            Err(e) => { return Err(e); },
        };
        assert(file_store@.segments == raw);
        let ghost start = file_store@;
        let mut index = match Self::load(&mut file_store) {
            Ok(index) => index,
            Err(e) => { return Err(e); },
        };
        proof {
            let read = file_store@.segments;
            lemma_loaded_unique(raw, read, replayed(raw));
            lemma_loaded_readable(raw, read);
            lemma_replay_index(index@, log_of(read));
            assert(read.len() == start.segments.len());
        }
        Self::compact(&mut file_store, &mut index);
        Ok(KvStore { file_store, index, compact_counter: 0, compact_count })
    }

    /// Opens the store on the directory that holds `files`, with the usual
    /// segment size and compaction count.
    pub fn open(files: Vec<(String, Vec<u8>)>) -> (r: Result<KvStore, KvsError>)
        ensures
            match r {
                Ok(store) => {
                    &&& Self::can_open(file_views(files@))
                    &&& store@.wf()
                    &&& store@.contents() == Self::directory_contents(file_views(files@))
                    &&& store@.files == Self::opened_files(
                        file_views(files@),
                        DEFAULT_FILE_CAPACITY,
                    )
                    &&& squeezed(store@.files, store@.index)
                    &&& store@.counter == 0
                    &&& store@.compact_count == DEFAULT_COMPACT_COUNT
                    &&& starts_within(
                        Self::directory_log(file_views(files@)),
                        DEFAULT_FILE_CAPACITY,
                    ) ==> store@.files.within()
                },
                Err(e) => !Self::can_open(file_views(files@)) && (e is InternalError || e is Decode
                    || e is SerdeJson),
            },
    {
        Self::open_with(files, DEFAULT_FILE_CAPACITY, DEFAULT_COMPACT_COUNT)
    }

    /// A store on an empty directory, with the usual segment size and
    /// compaction count.
    pub fn new() -> (store: KvStore)
        ensures
            store@.wf(),
            store@.files.within(),
            store@.contents() == Map::<Seq<char>, Seq<char>>::empty(),
            store@.files == FileStore::new_view(DEFAULT_FILE_CAPACITY),
            store@.counter == 0,
            store@.compact_count == DEFAULT_COMPACT_COUNT,
    {
        let store = KvStore {
            file_store: FileStore::new(DEFAULT_FILE_CAPACITY),
            index: StringHashMap::new(),
            compact_counter: 0,
            compact_count: DEFAULT_COMPACT_COUNT,
        };
        proof {
            assert forall|key: Seq<char>| #[trigger] agrees(store@.index, store@.files.log(), key) by {}
            assert(store@.contents() =~= Map::<Seq<char>, Seq<char>>::empty());
        }
        store
    }

    /// A store that stands in for another while that one is changed: a
    /// store on an empty directory, whose segments take no writes and whose
    /// log is compacted at every change.
    fn blank() -> (store: KvStore)
        ensures
            store@.wf(),
            store@ == (KvStoreView {
                files: FileStore::new_view(0),
                index: Map::empty(),
                counter: 0,
                compact_count: 0,
            }),
    {
        let store = KvStore {
            file_store: FileStore::new(0),
            index: StringHashMap::new(),
            compact_counter: 0,
            compact_count: 0,
        };
        proof {
            assert forall|key: Seq<char>| #[trigger] agrees(store@.index, store@.files.log(), key) by {}
        }
        store
    }

    /// Takes the store out of its place, to change it and put it back.
    fn take(&mut self) -> (store: KvStore)
        ensures
            store == *old(self),
            store@.wf(),
    {
        proof {
            use_type_invariant(&*self);
        }
        let mut store = Self::blank();
        std::mem::swap(self, &mut store);
        store
    }

    /// The store after the command `cmd`: its record is appended to the
    /// log and the index follows; the change is counted, and the log is
    /// compacted where that is due.  Nothing changes where the record
    /// cannot be written.
    fn change(self, cmd: Command) -> (r: (KvStore, Result<(), KvsError>))
        ensures
            self@.wf(),
            r.0@.wf(),
            self@.files.within() ==> r.0@.files.within(),
            match r.1 {
                Ok(()) => {
                    &&& self@.files.accepts(cmd@)
                    &&& r.0@.contents() == changed(self@.contents(), cmd@)
                    &&& self@.counted(
                        self@.files.written(cmd@),
                        Self::indexed(self@.index, self@.files, cmd@),
                        r.0@,
                    )
                },
                Err(e) => {
                    &&& !self@.files.accepts(cmd@)
                    &&& r.0@ == self@
                    &&& refused(cmd@, e)
                },
            },
    {
        proof {
            use_type_invariant(&self);
        }
        let KvStore { mut file_store, mut index, mut compact_counter, compact_count } = self;
        let r = Self::record(&mut file_store, &mut index, cmd);
        if r.is_ok() {
            if compact_counter + 1 >= compact_count {
                compact_counter = 0;
                Self::compact(&mut file_store, &mut index);
            } else {
                compact_counter = compact_counter + 1;
            }
        }
        (KvStore { file_store, index, compact_counter, compact_count }, r)
    }

    /// Compacts the log now, whatever the count of changes is, and starts
    /// the count again.  Every segment but the active one is written again
    /// with its live records only, or taken away where it has none; the
    /// keys keep their values.
    pub fn compact_now(&mut self)
        ensures
            old(self)@.wf(),
            final(self)@.wf(),
            final(self)@.contents() == old(self)@.contents(),
            squeezed(final(self)@.files, final(self)@.index),
            final(self)@.files == (FileStoreView {
                segments: compacted(old(self)@.files.segments, old(self)@.index),
                journal: old(self)@.files.journal + squeeze_ops(
                    old(self)@.files.segments.drop_last(),
                    old(self)@.index,
                ),
                ..old(self)@.files
            }),
            final(self)@.counter == 0,
            final(self)@.compact_count == old(self)@.compact_count,
            old(self)@.files.within() ==> final(self)@.files.within(),
    {
        let KvStore { mut file_store, mut index, compact_counter: _, compact_count } = self.take();
        Self::compact(&mut file_store, &mut index);
        *self = KvStore { file_store, index, compact_counter: 0, compact_count };
    }

    /// Gives `key` the value `value`.  The command is appended to the log
    /// and the index is moved to it; the change is counted, and the log is
    /// compacted where that is due.  Nothing changes where the command
    /// cannot be written.
    pub fn set(&mut self, key: String, value: String) -> (r: Result<(), KvsError>)
        ensures
            old(self)@.wf(),
            final(self)@.wf(),
            old(self)@.files.within() ==> final(self)@.files.within(),
            ({
                let cmd = CommandView::Put { key: key@, value: value@ };
                let before = old(self)@;
                match r {
                    Ok(()) => {
                        &&& before.files.accepts(cmd)
                        &&& final(self)@.contents() == before.contents().insert(key@, value@)
                        &&& before.counted(
                            before.files.written(cmd),
                            Self::indexed(before.index, before.files, cmd),
                            final(self)@,
                        )
                    },
                    Err(e) => {
                        &&& !before.files.accepts(cmd)
                        &&& final(self)@ == before
                        &&& refused(cmd, e)
                    },
                }
            }),
    {
        let (next, r) = self.take().change(Command::set(key, value));
        *self = next;
        r
    }

    /// Takes the value of `key` away.  `KeyNotFound` where the key has no
    /// value; otherwise the command is appended to the log and the key
    /// leaves the index; the change is counted, and the log is compacted
    /// where that is due.  Nothing changes where the command cannot be
    /// written.
    pub fn remove(&mut self, key: String) -> (r: Result<(), KvsError>)
        ensures
            old(self)@.wf(),
            final(self)@.wf(),
            old(self)@.files.within() ==> final(self)@.files.within(),
            ({
                let cmd = CommandView::Del { key: key@ };
                let before = old(self)@;
                match r {
                    Ok(()) => {
                        &&& before.contents().contains_key(key@)
                        &&& before.files.accepts(cmd)
                        &&& final(self)@.contents() == before.contents().remove(key@)
                        &&& before.counted(
                            before.files.written(cmd),
                            Self::indexed(before.index, before.files, cmd),
                            final(self)@,
                        )
                    },
                    Err(e) => {
                        &&& final(self)@ == before
                        &&& if !before.contents().contains_key(key@) {
                            e is KeyNotFound
                        } else {
                            &&& !before.files.accepts(cmd)
                            &&& refused(cmd, e)
                        }
                    },
                }
            }),
    {
        proof {
            use_type_invariant(&*self);
            lemma_index_entry(self@, key@);
        }
        if !self.index.contains_key(key.as_str()) {
            return Err(KvsError::KeyNotFound);
        }
        let (next, r) = self.take().change(Command::del(key));
        *self = next;
        r
    }

    /// The changes that the files of the directory have not seen yet, in
    /// the order in which they are to be made.  They are handed out once.
    pub fn take_journal(&mut self) -> (ops: Vec<DiskOp>)
        ensures
            old(self)@.wf(),
            op_views(ops@) == old(self)@.files.journal,
            final(self)@ == (KvStoreView {
                files: FileStoreView {
                    journal: Seq::empty(),
                    disk: crate::file_store::image(old(self)@.files.segments),
                    ..old(self)@.files
                },
                ..old(self)@
            }),
            final(self)@.wf(),
    {
        let KvStore { mut file_store, index, compact_counter, compact_count } = self.take();
        let ops = file_store.take_journal();
        *self = KvStore { file_store, index, compact_counter, compact_count };
        ops
    }

    /// The files of the directory as the store has them: the name and the
    /// bytes of each segment.
    pub fn files(&self) -> (files: Vec<(String, Vec<u8>)>)
        ensures
            self@.wf(),
            file_views(files@) == files_of(self@.files.segments),
    {
        proof {
            use_type_invariant(self);
        }
        self.file_store.files()
    }

    /// The value of `key`, or `None` where the key has none.
    pub fn get(&mut self, key: String) -> (r: Result<Option<String>, KvsError>)
        ensures
            old(self)@.wf(),
            final(self)@ == old(self)@,
            match r {
                Ok(Some(value)) => old(self)@.contents().contains_key(key@) && old(
                    self,
                )@.contents()[key@] == value@,
                Ok(None) => !old(self)@.contents().contains_key(key@),
                Err(_) => false,
            },
    {
        proof {
            use_type_invariant(&*self);
            lemma_index_entry(self@, key@);
        }
        let at = match self.index.get(key.as_str()) {
            None => { return Ok(None); },
            Some(at) => *at,
        };
        match self.file_store.read_command_position(&at) {
            Ok(Command::Put { key: found, value }) => {
                if same_text(&found, &key) {
                    Ok(Some(value))
                } else {
                    Err(KvsError::InternalError)
                }
            },
            Ok(Command::Del { .. }) => Err(KvsError::InternalError),
            Err(e) => Err(e),
        }
    }
}

} // verus!
