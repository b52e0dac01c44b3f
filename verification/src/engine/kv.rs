//! The store: the state that readers and the writer share, the reader with
//! its cache of open segments, the writer with the active segment, and the
//! store that holds them together.

use vstd::prelude::*;
use vstd::slice::{slice_subrange, slice_to_vec};
use dashmap::DashMap;
use crate::command::{
    decode_record, encode_rm, encode_set, parse_record, rm_record, set_record, Command,
    CommandView,
};
use crate::engine::KvsEngine;
use crate::error::KVStoreError;
use crate::index::{
    index_entries, index_get, index_insert, index_list, index_new, index_remove, CommandPos,
};
use crate::log::{clean, lemma_scan_append, replay, scan, scanned_len, SegmentView};
use crate::names::{names_view, sorted, sorted_ids, valid_ids};
use crate::segment::{
    ascending, file_op, files_of, files_view, has_segment, ids_of, lemma_listing_of_files,
    lemma_lookup_at, listing, lookup, rank, Directory, FileOp,
};
use crate::engine::model::{
    appended, contents_of, counted, entries_ok, entry_ok, lemma_create_keeps, lemma_drop_entry,
    lemma_point_at, lemma_relocate_keeps, lemma_remove_keeps, lemma_retire_keeps,
    lemma_same_records_chain, lemma_same_records_extend, lemma_same_records_relocate,
    lemma_same_records_retire, lemma_set_keeps, lemma_tiles_append, lemma_tiles_empty,
    lemma_truncate_keeps, lemma_with_segment, tiles,
    record_at, recover_dir, recover_segment, same_records, slice_at, store_wf, tail_pos,
    truncated, value_at, with_segment, Recovered,
};

verus! {

/// The writer compacts once more than this many bytes of the log are
/// records that nothing points at.
pub const MAX_COMPACTION_SIZE: u64 = 1024;

/// Adds two counters, stopping at the largest `u64`.
fn add_counted(a: u64, b: u64) -> (sum: u64)
    ensures
        sum == counted(a as int, b as int),
{
    if a > u64::MAX - b {
        u64::MAX
    } else {
        a + b
    }
}

/// Appends to the active segment, and knows where its end is without
/// asking the segment.
pub struct BufWriterWithPos {
    position: u64,
}

impl BufWriterWithPos {
    /// Where the next byte goes.
    pub closed spec fn pos(&self) -> u64 {
        self.position
    }

    /// A writer at the end of a segment of `end` bytes.
    pub fn new(end: u64) -> (writer: Self)
        ensures
            writer.pos() == end,
    {
        BufWriterWithPos { position: end }
    }

    /// Where the next byte goes.
    pub fn get_position(&self) -> (position: u64)
        ensures
            position == self.pos(),
    {
        self.position
    }

    /// Appends `buf` to the active segment of `dir`, and moves on by its
    /// length.
    pub fn write(&mut self, dir: &mut Directory, buf: &[u8]) -> (written: usize)
        requires
            old(dir)@.len() > 0,
            old(self).pos() == old(dir)@.last().data.len(),
        ensures
            final(dir)@ == appended(old(dir)@, buf@),
            final(self).pos() == final(dir)@.last().data.len(),
            final(self).pos() == old(self).pos() + buf@.len(),
            written == buf@.len(),
    {
        dir.append(buf);
        let last = dir.len() - 1;
        let end = dir.data_at(last).len();
        self.position = end as u64;
        buf.len()
    }
}

/// The bytes that a read of `pos` gets from a segment: as many of the
/// `pos.length` bytes from `pos.offset` on as the segment has.
pub open spec fn read_range(data: Seq<u8>, pos: CommandPos) -> Seq<u8> {
    let start = if pos.offset <= data.len() {
        pos.offset as int
    } else {
        data.len() as int
    };
    let end = if pos.offset + pos.length <= data.len() {
        pos.offset + pos.length
    } else {
        data.len() as int
    };
    data.subrange(start, end)
}

/// What a reader makes of the bytes it read for an index entry.
pub open spec fn read_outcome(bytes: Seq<u8>) -> Result<Option<Seq<char>>, KVStoreError> {
    match parse_record(bytes) {
        Some((command, n)) => if n != bytes.len() {
            Err(KVStoreError::Encoding)
        } else {
            match command {
                CommandView::SET(_, value) => Ok(Some(value)),
                CommandView::RM(_) => Err(KVStoreError::UnknownCommandType),
            }
        },
        None => Err(KVStoreError::Encoding),
    }
}

/// A result of strings is the given result of character sequences.
pub open spec fn is_outcome(
    r: Result<Option<String>, KVStoreError>,
    outcome: Result<Option<Seq<char>>, KVStoreError>,
) -> bool {
    match (r, outcome) {
        (Ok(Some(s)), Ok(Some(text))) => s@ == text,
        (Ok(None), Ok(None)) => true,
        (Err(e1), Err(e2)) => e1 == e2,
        _ => false,
    }
}

/// Decodes the bytes that an index entry points at: they must be one whole
/// `SET` record, and its value is the result. Bytes that are no record, or
/// a record and more, give `Encoding`; an `RM` record gives
/// `UnknownCommandType`.
pub fn decode_value(bytes: &[u8]) -> (r: Result<Option<String>, KVStoreError>)
    ensures
        is_outcome(r, read_outcome(bytes@)),
{
    match decode_record(bytes) {
        Some((command, n)) => {
            if n != bytes.len() {
                Err(KVStoreError::Encoding)
            } else {
                match command {
                    Command::SET(_, value) => Ok(Some(value)),
                    Command::RM(_) => Err(KVStoreError::UnknownCommandType),
                }
            }
        },
        None => Err(KVStoreError::Encoding),
    }
}

/// The ids of `ids` that are not below `watermark`, in their order.
pub open spec fn not_retired(ids: Seq<u64>, watermark: u64) -> Seq<u64>
    decreases ids.len(),
{
    if ids.len() == 0 {
        ids
    } else if ids.last() >= watermark {
        not_retired(ids.drop_last(), watermark).push(ids.last())
    } else {
        not_retired(ids.drop_last(), watermark)
    }
}

/// No id that is kept is below the watermark, and every id that is not
/// below it is kept.
pub proof fn lemma_not_retired(ids: Seq<u64>, watermark: u64)
    ensures
        forall|i: int|
            0 <= i < not_retired(ids, watermark).len() ==> #[trigger] not_retired(
                ids,
                watermark,
            )[i] >= watermark,
        forall|id: u64|
            #[trigger] not_retired(ids, watermark).contains(id) <==> ids.contains(id) && id
                >= watermark,
    decreases ids.len(),
{
    if ids.len() > 0 {
        let rest = ids.drop_last();
        lemma_not_retired(rest, watermark);
        let kept = not_retired(ids, watermark);
        let kept_rest = not_retired(rest, watermark);
        assert forall|id: u64| #[trigger] kept.contains(id) <==> ids.contains(id) && id
            >= watermark by {
            if kept.contains(id) {
                let i = choose|i: int| 0 <= i < kept.len() && kept[i] == id;
                if ids.last() >= watermark && i == kept.len() - 1 {
                    assert(ids[ids.len() - 1] == id);
                } else {
                    assert(kept_rest[i] == id);
                    assert(kept_rest.contains(id));
                    let j = choose|j: int| 0 <= j < rest.len() && rest[j] == id;
                    assert(ids[j] == id);
                }
            }
            if ids.contains(id) && id >= watermark {
                let j = choose|j: int| 0 <= j < ids.len() && ids[j] == id;
                if j == ids.len() - 1 {
                    assert(kept[kept.len() - 1] == id);
                } else {
                    assert(rest[j] == id);
                    assert(rest.contains(id));
                    assert(kept_rest.contains(id));
                    let i = choose|i: int| 0 <= i < kept_rest.len() && kept_rest[i] == id;
                    assert(kept[i] == id);
                }
            }
        }
    }
}

/// Closing the retired segments of a list without repetition leaves a
/// list without repetition.
pub proof fn lemma_not_retired_no_duplicates(ids: Seq<u64>, watermark: u64)
    requires
        ids.no_duplicates(),
    ensures
        not_retired(ids, watermark).no_duplicates(),
    decreases ids.len(),
{
    if ids.len() > 0 {
        let rest = ids.drop_last();
        lemma_not_retired_no_duplicates(rest, watermark);
        lemma_not_retired(rest, watermark);
        let kept_rest = not_retired(rest, watermark);
        if ids.last() >= watermark {
            assert(!kept_rest.contains(ids.last())) by {
                if kept_rest.contains(ids.last()) {
                    let j = choose|j: int| 0 <= j < rest.len() && rest[j] == ids.last();
                    assert(ids[j] == ids[ids.len() - 1]);
                }
            }
            lemma_push_no_duplicates(kept_rest, ids.last());
        }
    }
}

/// One more id behind a list without repetition that does not hold it
/// leaves a list without repetition.
pub proof fn lemma_push_no_duplicates(ids: Seq<u64>, id: u64)
    requires
        ids.no_duplicates(),
        !ids.contains(id),
    ensures
        ids.push(id).no_duplicates(),
{
    let pushed = ids.push(id);
    assert forall|i: int, j: int| 0 <= i < pushed.len() && 0 <= j < pushed.len() && i
        != j implies pushed[i] != pushed[j] by {
        if i < ids.len() && j < ids.len() {
            assert(ids[i] != ids[j]);
        } else if i < ids.len() {
            assert(ids.contains(ids[i]));
        } else {
            assert(ids.contains(ids[j]));
        }
    }
}

/// A reader: the segments it holds open, none of them twice.
pub struct Reader {
    readers: Vec<u64>,
}

impl View for Reader {
    type V = Seq<u64>;

    closed spec fn view(&self) -> Seq<u64> {
        self.readers@
    }
}

impl Clone for Reader {
    /// A reader of the same store that holds no segment open yet.
    fn clone(&self) -> (reader: Self)
        ensures
            reader@ == Seq::<u64>::empty(),
            reader.wf(),
    {
        Reader { readers: Vec::new() }
    }
}

impl Reader {
    /// No segment is held open twice.
    pub open spec fn wf(&self) -> bool {
        self@.no_duplicates()
    }

    /// A reader that holds no segment open.
    pub fn new() -> (reader: Self)
        ensures
            reader@ == Seq::<u64>::empty(),
            reader.wf(),
    {
        Reader { readers: Vec::new() }
    }

    /// The ids of the segments that the reader holds open.
    pub fn open_segments(&self) -> (ids: Vec<u64>)
        ensures
            ids@ == self@,
    {
        self.readers.clone()
    }

    /// Closes every segment below the watermark.
    pub fn try_to_remove_stale_readers_in_reader(&mut self, watermark: u64)
        requires
            old(self).wf(),
        ensures
            final(self)@ == not_retired(old(self)@, watermark),
            final(self).wf(),
    {
        proof {
            lemma_not_retired_no_duplicates(self@, watermark);
        }
        let mut kept: Vec<u64> = Vec::new();
        let mut i: usize = 0;
        while i < self.readers.len()
            invariant
                i <= self.readers@.len(),
                self.readers@ == old(self)@,
                kept@ == not_retired(old(self)@.take(i as int), watermark),
            decreases self.readers@.len() - i,
        {
            let id = self.readers[i];
            assert(old(self)@.take(i + 1).drop_last() =~= old(self)@.take(i as int));
            if id >= watermark {
                kept.push(id);
            }
            i = i + 1;
        }
        assert(old(self)@.take(i as int) =~= old(self)@);
        self.readers = kept;
    }

    /// Whether the reader holds the segment `id` open.
    fn holds(&self, id: u64) -> (found: bool)
        ensures
            found == self@.contains(id),
    {
        let mut i: usize = 0;
        while i < self.readers.len()
            invariant
                i <= self.readers@.len(),
                forall|k: int| 0 <= k < i ==> self.readers@[k] != id,
            decreases self.readers@.len() - i,
        {
            if self.readers[i] == id {
                return true;
            }
            i = i + 1;
        }
        false
    }

    /// Reads the bytes that `pos` points at. First closes the segments
    /// below the watermark, then opens the segment of `pos` unless it is
    /// open. Fails with `Io` where the directory has no such segment, and
    /// only then.
    pub fn read_add(&mut self, dir: &Directory, watermark: u64, pos: &CommandPos) -> (r: Result<
        Vec<u8>,
        KVStoreError,
    >)
        requires
            dir.wf(),
            old(self).wf(),
        ensures
            final(self).wf(),
            match lookup(dir@, pos.file_id) {
                Some(data) => {
                    &&& r matches Ok(bytes) && bytes@ == read_range(data, *pos)
                    &&& final(self)@ == if not_retired(old(self)@, watermark).contains(
                        pos.file_id,
                    ) {
                        not_retired(old(self)@, watermark)
                    } else {
                        not_retired(old(self)@, watermark).push(pos.file_id)
                    }
                },
                None => {
                    &&& r matches Err(e) && e == KVStoreError::Io
                    &&& final(self)@ == not_retired(old(self)@, watermark)
                },
            },
    {
        self.try_to_remove_stale_readers_in_reader(watermark);
        let at = match dir.position(pos.file_id) {
            Some(at) => at,
            None => { return Err(KVStoreError::Io); },
        };
        self.hold(pos.file_id);
        proof {
            lemma_lookup_at(dir@, at as int);
        }
        let data = dir.data_at(at);
        let len = data.len();
        let start: usize = if pos.offset > len as u64 {
            len
        } else {
            pos.offset as usize
        };
        let rest = len - start;
        let count: usize = if pos.length > rest as u64 {
            rest
        } else {
            pos.length as usize
        };
        let bytes = slice_to_vec(slice_subrange(data.as_slice(), start, start + count));
        Ok(bytes)
    }

    /// Reads the value that `pos` points at: the bytes as `read_add` gets
    /// them, decoded as `decode_value` does.
    pub fn read_command(&mut self, dir: &Directory, watermark: u64, pos: &CommandPos) -> (r:
        Result<Option<String>, KVStoreError>)
        requires
            dir.wf(),
            old(self).wf(),
        ensures
            final(self).wf(),
            match lookup(dir@, pos.file_id) {
                Some(data) => {
                    &&& is_outcome(r, read_outcome(read_range(data, *pos)))
                    &&& final(self)@ == if not_retired(old(self)@, watermark).contains(
                        pos.file_id,
                    ) {
                        not_retired(old(self)@, watermark)
                    } else {
                        not_retired(old(self)@, watermark).push(pos.file_id)
                    }
                },
                None => {
                    &&& r matches Err(e) && e == KVStoreError::Io
                    &&& final(self)@ == not_retired(old(self)@, watermark)
                },
            },
    {
        match self.read_add(dir, watermark, pos) {
            Ok(bytes) => decode_value(bytes.as_slice()),
            Err(e) => Err(e),
        }
    }

    /// Opens the segment `id`, unless it is open.
    pub fn hold(&mut self, id: u64)
        requires
            old(self).wf(),
        ensures
            final(self)@ == if old(self)@.contains(id) {
                old(self)@
            } else {
                old(self)@.push(id)
            },
            final(self).wf(),
    {
        if !self.holds(id) {
            proof {
                lemma_push_no_duplicates(self@, id);
            }
            self.readers.push(id);
        }
    }

    /// Closes every segment below `file_number`, and deletes those segments
    /// from the directory.
    pub fn remove_useless_reader_in_writer(&mut self, dir: &mut Directory, file_number: u64) -> (r:
        Result<(), KVStoreError>)
        requires
            old(dir).wf(),
            old(self).wf(),
        ensures
            r is Ok,
            final(self)@ == not_retired(old(self)@, file_number),
            final(self).wf(),
            final(dir).wf(),
            final(dir)@ == old(dir)@.skip(rank(old(dir)@, file_number)),
    {
        self.try_to_remove_stale_readers_in_reader(file_number);
        let _removed = dir.delete_below(file_number);
        Ok(())
    }
}

/// What readers and the writer share: the segments, the index, and the
/// compaction watermark.
pub struct Shared {
    index: DashMap<String, CommandPos>,
    dir: Directory,
    compaction_number: u64,
}

impl Shared {
    /// The segments.
    pub closed spec fn directory(&self) -> Seq<SegmentView> {
        self.dir@
    }

    /// The index.
    pub closed spec fn entries(&self) -> Map<Seq<char>, CommandPos> {
        index_entries(self.index)
    }

    /// The compaction watermark: segments below it are retired.
    pub closed spec fn watermark(&self) -> u64 {
        self.compaction_number
    }

    /// The segments and the index belong together.
    pub open spec fn wf(&self) -> bool {
        store_wf(self.directory(), self.entries(), self.watermark())
    }

    /// The map from keys to values that the store holds.
    pub open spec fn contents(&self) -> Map<Seq<char>, Seq<char>> {
        contents_of(self.directory(), self.entries())
    }

    /// A read of the entry of a key that the index holds finds the
    /// segment, gets one whole `SET` record, and decodes it to the value
    /// that the store holds under the key.
    pub proof fn lemma_read_gives_value(self, key: Seq<char>)
        requires
            self.wf(),
            self.entries().contains_key(key),
        ensures
            lookup(self.directory(), self.entries()[key].file_id) matches Some(data)
                && read_outcome(read_range(data, self.entries()[key])) == Ok::<
                Option<Seq<char>>,
                KVStoreError,
            >(Some(self.contents()[key])),
    {
        let d = self.directory();
        let pos = self.entries()[key];
        assert(entry_ok(d, self.watermark(), key, pos));
        let data = lookup(d, pos.file_id).unwrap();
        assert(read_range(data, pos) =~= slice_at(data, pos));
        crate::command::lemma_stable_record_parses(
            slice_at(data, pos),
            CommandView::SET(key, value_at(d, pos)),
        );
    }
}

/// Whether the writer compacts, with `size` bytes counted as reclaimable
/// and `active` the id of its segment. It needs two fresh ids above
/// `active`.
pub open spec fn compaction_due(size: u64, active: u64) -> bool {
    size > MAX_COMPACTION_SIZE && active <= u64::MAX - 2
}

/// The writer: the only one who changes what is shared.
pub struct Writer {
    current_readers: Reader,
    current_writer: BufWriterWithPos,
    current_file_id: u64,
    size_for_compaction: u64,
}

impl Writer {
    /// The id of the active segment.
    pub closed spec fn active(&self) -> u64 {
        self.current_file_id
    }

    /// How many bytes of the log the writer counts as reclaimable.
    pub closed spec fn reclaimable(&self) -> u64 {
        self.size_for_compaction
    }

    /// The segments that the writer holds open for reading.
    pub closed spec fn open_segments(&self) -> Seq<u64> {
        self.current_readers@
    }

    /// The writer stands at the end of the last segment, and holds no
    /// segment open twice.
    pub closed spec fn wf(&self, shared: &Shared) -> bool {
        &&& self.current_readers.wf()
        &&& shared.directory().len() > 0
        &&& self.current_file_id == shared.directory().last().id
        &&& self.current_writer.pos() == shared.directory().last().data.len()
    }

    /// Opens a fresh, empty segment above the active one, and makes it the
    /// active segment.
    pub fn create_new_file(&mut self, shared: &mut Shared) -> (r: Result<(), KVStoreError>)
        requires
            old(shared).wf(),
            old(self).wf(old(shared)),
            old(self).active() < u64::MAX,
        ensures
            r is Ok,
            final(shared).wf(),
            final(self).wf(final(shared)),
            final(shared).directory() == with_segment(
                old(shared).directory(),
                (old(self).active() + 1) as u64,
            ),
            final(shared).entries() == old(shared).entries(),
            final(shared).watermark() == old(shared).watermark(),
            final(shared).contents() == old(shared).contents(),
            final(self).active() == old(self).active() + 1,
            final(self).reclaimable() == old(self).reclaimable(),
            final(self).open_segments() == if old(self).open_segments().contains(
                (old(self).active() + 1) as u64,
            ) {
                old(self).open_segments()
            } else {
                old(self).open_segments().push((old(self).active() + 1) as u64)
            },
    {
        proof {
            lemma_create_keeps(
                shared.directory(),
                shared.entries(),
                shared.watermark(),
                (self.current_file_id + 1) as u64,
            );
        }
        self.current_file_id = self.current_file_id + 1;
        shared.dir.create(self.current_file_id);
        self.current_writer = BufWriterWithPos::new(0);
        self.current_readers.hold(self.current_file_id);
        Ok(())
    }

    /// Appends `SET(key, value)`, points the index at it, counts the
    /// record's length as reclaimable, and compacts if that is due. It
    /// always succeeds.
    pub fn set(&mut self, shared: &mut Shared, key: String, value: String) -> (r: Result<
        (),
        KVStoreError,
    >)
        requires
            old(shared).wf(),
            old(self).wf(old(shared)),
        ensures
            final(shared).wf(),
            final(self).wf(final(shared)),
            final(shared).watermark() >= old(shared).watermark(),
            r is Ok,
            ({
                    let record = set_record(key@, value@);
                    let size = counted(old(self).reclaimable() as int, record.len() as int);
                    &&& final(shared).contents() == old(shared).contents().insert(key@, value@)
                    &&& if compaction_due(size, old(self).active()) {
                        &&& compacted(*old(self), *final(self), *final(shared))
                        &&& same_records(
                            appended(old(shared).directory(), record),
                            old(shared).entries().insert(
                                key@,
                                tail_pos(old(shared).directory(), record),
                            ),
                            final(shared).directory(),
                            final(shared).entries(),
                        )
                    } else {
                        &&& final(shared).directory() == appended(
                            old(shared).directory(),
                            record,
                        )
                        &&& final(shared).entries() == old(shared).entries().insert(
                            key@,
                            tail_pos(old(shared).directory(), record),
                        )
                        &&& final(shared).watermark() == old(shared).watermark()
                        &&& final(self).active() == old(self).active()
                        &&& final(self).reclaimable() == size
                        &&& final(self).open_segments() == old(self).open_segments()
                    }
            }),
    {
        let record = match encode_set(key.as_str(), value.as_str()) {
            Ok(record) => record,
            Err(e) => { return Err(e); },
        };
        let offset0 = self.current_writer.get_position();
        self.current_writer.write(&mut shared.dir, record.as_slice());
        let length = self.current_writer.get_position() - offset0;
        proof {
            lemma_set_keeps(
                old(shared).directory(),
                old(shared).entries(),
                old(shared).watermark(),
                record@,
                key@,
                value@,
            );
        }
        let pos = CommandPos { offset: offset0, length, file_id: self.current_file_id };
        index_insert(&mut shared.index, key, pos);
        self.size_for_compaction = add_counted(self.size_for_compaction, length);
        if self.size_for_compaction > MAX_COMPACTION_SIZE && self.current_file_id <= u64::MAX
            - 2 {
            let _ = self.compact(shared);
        }
        Ok(())
    }

    /// Where the index holds `key`: drops the entry, appends `RM(key)`,
    /// counts the lengths of both records as reclaimable, and compacts if
    /// that is due. Fails with `KeyNotFound` where the index does not hold
    /// `key`, changes nothing then, and fails in no other case.
    pub fn remove(&mut self, shared: &mut Shared, key: String) -> (r: Result<(), KVStoreError>)
        requires
            old(shared).wf(),
            old(self).wf(old(shared)),
        ensures
            final(shared).wf(),
            final(self).wf(final(shared)),
            final(shared).watermark() >= old(shared).watermark(),
            r is Ok <==> old(shared).contents().contains_key(key@),
            match r {
                Ok(()) => {
                    let record = rm_record(key@);
                    let size = counted(
                        counted(
                            old(self).reclaimable() as int,
                            old(shared).entries()[key@].length as int,
                        ) as int,
                        record.len() as int,
                    );
                    &&& old(shared).contents().contains_key(key@)
                    &&& final(shared).contents() == old(shared).contents().remove(key@)
                    &&& if compaction_due(size, old(self).active()) {
                        &&& compacted(*old(self), *final(self), *final(shared))
                        &&& same_records(
                            appended(old(shared).directory(), record),
                            old(shared).entries().remove(key@),
                            final(shared).directory(),
                            final(shared).entries(),
                        )
                    } else {
                        &&& final(shared).directory() == appended(
                            old(shared).directory(),
                            record,
                        )
                        &&& final(shared).entries() == old(shared).entries().remove(key@)
                        &&& final(shared).watermark() == old(shared).watermark()
                        &&& final(self).active() == old(self).active()
                        &&& final(self).reclaimable() == size
                        &&& final(self).open_segments() == old(self).open_segments()
                    }
                },
                Err(e) => {
                    &&& e == KVStoreError::KeyNotFound
                    &&& *final(shared) == *old(shared)
                    &&& *final(self) == *old(self)
                },
            },
    {
        let entry = match index_get(&shared.index, &key) {
            Some(entry) => entry,
            None => { return Err(KVStoreError::KeyNotFound); },
        };
        let record = match encode_rm(key.as_str()) {
            Ok(record) => record,
            Err(e) => { return Err(e); },
        };
        proof {
            lemma_remove_keeps(
                old(shared).directory(),
                old(shared).entries(),
                old(shared).watermark(),
                record@,
                key@,
            );
        }
        index_remove(&mut shared.index, &key);
        self.size_for_compaction = add_counted(self.size_for_compaction, entry.length);
        let offset0 = self.current_writer.get_position();
        self.current_writer.write(&mut shared.dir, record.as_slice());
        let length = self.current_writer.get_position() - offset0;
        self.size_for_compaction = add_counted(self.size_for_compaction, length);
        if self.size_for_compaction > MAX_COMPACTION_SIZE && self.current_file_id <= u64::MAX
            - 2 {
            let _ = self.compact(shared);
        }
        Ok(())
    }

    /// Rewrites the record of every live key into a fresh segment, raises
    /// the watermark to that segment, deletes the segments below it, and
    /// goes on in another fresh segment. What the store holds stays as it
    /// was.
    #[verifier::rlimit(40)]
    pub fn compact(&mut self, shared: &mut Shared) -> (r: Result<(), KVStoreError>)
        requires
            old(shared).wf(),
            old(self).wf(old(shared)),
            old(self).active() <= u64::MAX - 2,
        ensures
            r is Ok,
            final(shared).wf(),
            final(self).wf(final(shared)),
            final(shared).contents() == old(shared).contents(),
            final(shared).watermark() > old(shared).watermark(),
            compacted(*old(self), *final(self), *final(shared)),
            same_records(
                old(shared).directory(),
                old(shared).entries(),
                final(shared).directory(),
                final(shared).entries(),
            ),
    {
        let ghost contents0 = shared.contents();
        let ghost d_old = shared.directory();
        let ghost idx_old = shared.entries();
        proof {
            lemma_with_segment(d_old, (self.current_file_id + 1) as u64);
            lemma_same_records_extend(
                d_old,
                with_segment(d_old, (self.current_file_id + 1) as u64),
                idx_old,
                shared.watermark(),
            );
        }
        let _ = self.create_new_file(shared);
        let target = self.current_file_id;
        let entries = index_list(&shared.index);
        let ghost idx0 = shared.entries();
        let ghost mut moved: Map<Seq<char>, Seq<char>> = Map::empty();
        proof {
            crate::log::lemma_parse_empty();
            lemma_lookup_at(shared.directory(), shared.directory().len() - 1);
            lemma_tiles_empty(shared.directory(), idx0, shared.watermark(), target);
            assert forall|j: int| 0 <= j < entries@.len() implies (#[trigger] entries@[j]).1.file_id
                != target by {
                assert(idx0.contains_key(entries@[j].0@));
            }
        }
        let mut i: usize = 0;
        while i < entries.len()
            invariant
                i <= entries@.len(),
                shared.wf(),
                self.wf(shared),
                self.current_file_id == target,
                self.size_for_compaction == old(self).size_for_compaction,
                target == old(self).active() + 1,
                shared.watermark() == old(shared).watermark(),
                shared.directory().len() == old(shared).directory().len() + 1,
                shared.contents() == contents0,
                same_records(d_old, idx_old, shared.directory(), shared.entries()),
                tiles(shared.entries(), target, shared.directory().last().data.len() as int),
                forall|j: int|
                    0 <= j < entries@.len() ==> (#[trigger] entries@[j]).1.file_id != target,
                forall|key: Seq<char>|
                    shared.entries().contains_key(key) <==> #[trigger] idx0.contains_key(key),
                forall|j: int|
                    0 <= j < entries@.len() ==> idx0.contains_key(#[trigger] entries@[j].0@),
                forall|j: int, k: int|
                    0 <= j < k < entries@.len() ==> #[trigger] entries@[j].0@
                        != #[trigger] entries@[k].0@,
                forall|key: Seq<char>| #[trigger]
                    idx0.contains_key(key) ==> exists|j: int|
                        0 <= j < entries@.len() && #[trigger] entries@[j].0@ == key,
                forall|j: int|
                    i <= j < entries@.len() ==> shared.entries()[#[trigger] entries@[j].0@]
                        == entries@[j].1,
                forall|j: int|
                    0 <= j < i ==> shared.entries()[#[trigger] entries@[j].0@].file_id == target,
                crate::log::scan(shared.directory().last().data, Map::empty()) == moved,
                forall|key: Seq<char>| #[trigger]
                    moved.contains_key(key) ==> contents0.contains_key(key) && moved[key]
                        == contents0[key],
                forall|j: int| 0 <= j < i ==> moved.contains_key(#[trigger] entries@[j].0@),
            decreases entries@.len() - i,
        {
            let key = entries[i].0.clone();
            let pos = entries[i].1;
            let ghost d = shared.directory();
            let ghost idx = shared.entries();
            proof {
                assert(idx0.contains_key(entries@[i as int].0@));
                assert(idx.contains_key(key@));
                assert(entry_ok(d, shared.watermark(), key@, pos));
                assert(entries@[i as int].1.file_id != target);
            }
            let bytes = match self.current_readers.read_add(
                &shared.dir,
                shared.compaction_number,
                &pos,
            ) {
                Ok(bytes) => bytes,
                Err(_) => vstd::pervasive::unreached(),
            };
            let offset0 = self.current_writer.get_position();
            self.current_writer.write(&mut shared.dir, bytes.as_slice());
            let length = self.current_writer.get_position() - offset0;
            let ghost value = contents0[key@];
            proof {
                assert(bytes@ =~= slice_at(lookup(d, pos.file_id).unwrap(), pos));
                assert(bytes@ == record_at(d, idx[key@]));
                lemma_relocate_keeps(d, idx, shared.watermark(), key@);
                lemma_tiles_append(
                    idx,
                    target,
                    d.last().data.len() as int,
                    key@,
                    bytes@.len() as int,
                );
                lemma_same_records_relocate(d, idx, shared.watermark(), key@);
                lemma_same_records_chain(
                    d_old,
                    idx_old,
                    d,
                    idx,
                    appended(d, bytes@),
                    idx.insert(key@, tail_pos(d, bytes@)),
                );
                crate::log::lemma_scan_append(
                    d.last().data,
                    bytes@,
                    CommandView::SET(key@, value),
                    Map::empty(),
                );
                moved = moved.insert(key@, value);
            }
            index_insert(
                &mut shared.index,
                key,
                CommandPos { offset: offset0, length, file_id: target },
            );
            proof {
                assert forall|j: int| i < j < entries@.len() implies shared.entries()[#[trigger] entries@[j].0@]
                    == entries@[j].1 by {
                    assert(entries@[i as int].0@ != entries@[j].0@);
                }
                assert forall|j: int| 0 <= j < i + 1 implies shared.entries()[#[trigger] entries@[j].0@].file_id
                    == target by {
                    if j < i {
                        assert(entries@[j].0@ != entries@[i as int].0@);
                    }
                }
            }
            i = i + 1;
        }
        let ghost d = shared.directory();
        let ghost idx = shared.entries();
        proof {
            let last = d.len() - 1;
            assert(moved =~= contents0) by {
                assert forall|key: Seq<char>| contents0.contains_key(key) implies moved.contains_key(
                    key,
                ) by {
                    assert(idx.contains_key(key));
                    assert(idx0.contains_key(key));
                    let j = choose|j: int| 0 <= j < entries@.len() && #[trigger] entries@[j].0@ == key;
                    assert(moved.contains_key(entries@[j].0@));
                }
            }
            assert(d.skip(last).drop_last() =~= Seq::<SegmentView>::empty());
            assert(d.skip(last).last() == d.last());
            assert(crate::log::replay(Seq::<SegmentView>::empty()) == Map::<
                Seq<char>,
                Seq<char>,
            >::empty());
            assert(crate::log::replay(d.skip(last)) == crate::log::scan(
                d.skip(last).last().data,
                crate::log::replay(d.skip(last).drop_last()),
            ));
            assert(crate::log::replay(d.skip(last)) == moved);
            assert forall|key: Seq<char>| #[trigger] idx.contains_key(key) implies idx[key].file_id
                >= d[last].id by {
                assert(idx0.contains_key(key));
                let j = choose|j: int| 0 <= j < entries@.len() && #[trigger] entries@[j].0@ == key;
                assert(idx[entries@[j].0@].file_id == target);
            }
            lemma_retire_keeps(d, idx, shared.watermark(), last);
            lemma_same_records_retire(d, idx, shared.watermark(), last);
            lemma_same_records_chain(d_old, idx_old, d, idx, d.skip(last), idx);
            lemma_with_segment(d.skip(last), (target + 1) as u64);
            lemma_same_records_extend(
                d.skip(last),
                with_segment(d.skip(last), (target + 1) as u64),
                idx,
                target,
            );
            lemma_same_records_chain(
                d_old,
                idx_old,
                d.skip(last),
                idx,
                with_segment(d.skip(last), (target + 1) as u64),
                idx,
            );
            crate::segment::lemma_rank(d, target);
            assert(rank(d, target) == last) by {
                let r = rank(d, target);
                if r > last {
                    assert(d[last].id < target);
                } else if r < last {
                    assert(d[r].id >= target);
                    assert(d[r].id < d[last].id);
                }
            }
        }
        shared.compaction_number = target;
        let ghost held = self.current_readers@;
        let _ = self.current_readers.remove_useless_reader_in_writer(&mut shared.dir, target);
        proof {
            lemma_not_retired(held, target);
        }
        self.size_for_compaction = 0;
        let _ = self.create_new_file(shared);
        Ok(())
    }
}

/// What a compaction leaves: the watermark at the segment above the one
/// that was active, that segment holding the record of every live key, an
/// empty active segment above it, no other segment, and nothing counted as
/// reclaimable.
pub open spec fn compacted(before: Writer, after: Writer, shared: Shared) -> bool {
    &&& shared.watermark() == before.active() + 1
    &&& after.active() == before.active() + 2
    &&& after.reclaimable() == 0
    &&& shared.directory().len() == 2
    &&& shared.directory()[0].id == before.active() + 1
    &&& shared.directory()[1].id == before.active() + 2
    &&& shared.directory()[1].data == Seq::<u8>::empty()
    &&& forall|key: Seq<char>| #[trigger]
        shared.entries().contains_key(key) ==> shared.entries()[key].file_id == before.active()
            + 1
    &&& forall|i: int|
        0 <= i < after.open_segments().len() ==> #[trigger] after.open_segments()[i]
            >= shared.watermark()
    &&& tiles(shared.entries(), shared.watermark(), shared.directory()[0].data.len() as int)
}

/// Replays the records of the segment at `at` into the index: each `SET`
/// points the index at itself, each `RM` drops the entry of its key. The
/// scan ends at the first byte that begins no record; that offset is
/// returned, with the count of reclaimable bytes.
fn scan_segment(index: &mut DashMap<String, CommandPos>, dir: &Directory, at: usize, size: u64) -> (r:
    (usize, u64))
    requires
        dir.wf(),
        at < dir@.len(),
        entries_ok(dir@, index_entries(*old(index)), 0),
        forall|key: Seq<char>| #[trigger]
            index_entries(*old(index)).contains_key(key) ==> index_entries(*old(index))[key].file_id
                < dir@[at as int].id,
    ensures
        ({
            let d = dir@;
            let data = d[at as int].data;
            let id = d[at as int].id;
            let idx0 = index_entries(*old(index));
            let idx = index_entries(*final(index));
            &&& entries_ok(d, idx, 0)
            &&& r.0 == scanned_len(data)
            &&& r.0 <= data.len()
            &&& clean(data.take(r.0 as int))
            &&& contents_of(d, idx) == scan(data, contents_of(d, idx0))
            &&& contents_of(d, idx) == scan(data.take(r.0 as int), contents_of(d, idx0))
            &&& forall|key: Seq<char>| #[trigger]
                idx.contains_key(key) ==> idx[key].file_id <= id && (idx[key].file_id == id
                    ==> idx[key].offset + idx[key].length <= r.0)
            &&& recover_segment(data, id, 0, (Recovered { entries: idx0, reclaimable: size }))
                == (Recovered { entries: idx, reclaimable: r.1 })
        }),
{
    let data = dir.data_at(at);
    let id = dir.id_at(at);
    let len = data.len();
    let ghost d = dir@;
    let ghost bytes = d[at as int].data;
    let ghost idx0 = index_entries(*index);
    let ghost m0 = contents_of(d, idx0);
    let ghost st0 = Recovered { entries: idx0, reclaimable: size };
    let mut size = size;
    let mut off: usize = 0;
    let mut done = false;
    proof {
        lemma_lookup_at(d, at as int);
        assert(bytes.take(0) =~= Seq::<u8>::empty());
        assert(bytes.skip(0) =~= bytes);
        crate::log::lemma_parse_empty();
    }
    while !done
        invariant
            dir.wf(),
            d == dir@,
            at < d.len(),
            bytes == d[at as int].data,
            data@ == bytes,
            id == d[at as int].id,
            len == bytes.len(),
            lookup(d, id) == Some(bytes),
            off <= len,
            entries_ok(d, index_entries(*index), 0),
            clean(bytes.take(off as int)),
            scan(bytes.take(off as int), m0) == contents_of(d, index_entries(*index)),
            scan(bytes.skip(off as int), contents_of(d, index_entries(*index))) == scan(bytes, m0),
            off + scanned_len(bytes.skip(off as int)) == scanned_len(bytes),
            done ==> parse_record(bytes.skip(off as int)) is None,
            forall|key: Seq<char>| #[trigger]
                index_entries(*index).contains_key(key) ==> index_entries(*index)[key].file_id <= id
                    && (index_entries(*index)[key].file_id == id ==> index_entries(
                    *index,
                )[key].offset + index_entries(*index)[key].length <= off),
            recover_segment(
                bytes,
                id,
                off as int,
                (Recovered { entries: index_entries(*index), reclaimable: size }),
            ) == recover_segment(bytes, id, 0, st0),
        decreases
                len - off + if done {
                    0int
                } else {
                    1int
                },
    {
        let ghost idx = index_entries(*index);
        let ghost rest = bytes.skip(off as int);
        match decode_record(slice_subrange(data.as_slice(), off, len)) {
            None => {
                done = true;
            },
            Some((command, n)) => {
                let pos = CommandPos { offset: off as u64, length: n as u64, file_id: id };
                let ghost c = command@;
                let ghost r = rest.take(n as int);
                proof {
                    assert(r =~= slice_at(bytes, pos));
                    assert(bytes.take(off + n) =~= bytes.take(off as int) + r);
                    assert(rest.skip(n as int) =~= bytes.skip(off + n));
                    lemma_scan_append(bytes.take(off as int), r, c, m0);
                }
                match command {
                    Command::SET(key, value) => {
                        proof {
                            lemma_point_at(d, idx, 0, key@, value@, pos);
                        }
                        index_insert(index, key, pos);
                        size = add_counted(size, n as u64);
                    },
                    Command::RM(key) => {
                        proof {
                            lemma_drop_entry(d, idx, 0, key@);
                        }
                        let prior = index_remove(index, &key);
                        let freed = match prior {
                            Some(entry) => entry.length,
                            None => 0,
                        };
                        size = add_counted(add_counted(size, freed), n as u64);
                    },
                }
                off = off + n;
            },
        }
    }
    proof {
        assert(scanned_len(bytes.skip(off as int)) == 0);
    }
    (off, size)
}

/// A store: what is shared, a reader, and the writer.
pub struct KvStore {
    shared: Shared,
    current_readers: Reader,
    current_writer: Writer,
}

impl View for KvStore {
    type V = Map<Seq<char>, Seq<char>>;

    /// The map from keys to values that the store holds.
    closed spec fn view(&self) -> Map<Seq<char>, Seq<char>> {
        self.shared.contents()
    }
}

impl KvStore {
    /// The segments.
    pub closed spec fn directory(&self) -> Seq<SegmentView> {
        self.shared.directory()
    }

    /// The index.
    pub closed spec fn entries(&self) -> Map<Seq<char>, CommandPos> {
        self.shared.entries()
    }

    /// The compaction watermark.
    pub closed spec fn watermark(&self) -> u64 {
        self.shared.watermark()
    }

    /// The id of the active segment.
    pub closed spec fn active(&self) -> u64 {
        self.current_writer.active()
    }

    /// How many bytes of the log the writer counts as reclaimable.
    pub closed spec fn reclaimable(&self) -> u64 {
        self.current_writer.reclaimable()
    }

    /// The segments that the store's reader holds open.
    pub closed spec fn open_segments(&self) -> Seq<u64> {
        self.current_readers@
    }

    /// The segments that the writer holds open for reading.
    pub closed spec fn writer_segments(&self) -> Seq<u64> {
        self.current_writer.open_segments()
    }

    /// The store is in order: the segments and the index belong together,
    /// and the writer stands at the end of the last segment.
    pub closed spec fn wf(&self) -> bool {
        &&& self.shared.wf()
        &&& self.current_writer.wf(&self.shared)
        &&& self.current_readers.wf()
    }

    /// What `recover` makes of the directory `d`.
    pub open spec fn recovered_from(&self, d: Seq<SegmentView>) -> bool {
        &&& self@ == replay(d)
        &&& self.entries() == recover_dir(d).entries
        &&& self.reclaimable() == recover_dir(d).reclaimable
        &&& self.watermark() == 0
        &&& self.directory() == if d.len() == 0 {
            with_segment(d, 0)
        } else {
            truncated(d, scanned_len(d.last().data))
        }
        &&& self.active() == self.directory().last().id
        &&& self.open_segments() == ids_of(self.directory())
        &&& self.writer_segments() == Seq::<u64>::empty()
    }

    /// Rebuilds a store from its segments: replays them in ascending order
    /// of their ids into a fresh index, counts the reclaimable bytes, cuts
    /// the last segment behind its last whole record and goes on writing
    /// there. A directory without segments gets the segment 0.
    pub fn recover(dir: Directory) -> (store: KvStore)
        requires
            dir.wf(),
        ensures
            store.wf(),
            store.recovered_from(dir@),
    {
        let ghost d = dir@;
        let mut dir = dir;
        let mut index = index_new();
        let mut size: u64 = 0;
        let mut valid: usize = 0;
        let mut readers = Reader::new();
        let n = dir.len();
        let mut at: usize = 0;
        proof {
            assert(contents_of(d, index_entries(index)) =~= Map::<Seq<char>, Seq<char>>::empty());
            assert(d.take(0) =~= Seq::<SegmentView>::empty());
        }
        while at < n
            invariant
                dir.wf(),
                dir@ == d,
                n == d.len(),
                at <= n,
                entries_ok(d, index_entries(index), 0),
                contents_of(d, index_entries(index)) == replay(d.take(at as int)),
                recover_dir(d.take(at as int)) == (Recovered {
                    entries: index_entries(index),
                    reclaimable: size,
                }),
                forall|key: Seq<char>| #[trigger]
                    index_entries(index).contains_key(key) ==> at > 0 && index_entries(
                        index,
                    )[key].file_id <= d[at - 1].id,
                readers@ == ids_of(d.take(at as int)),
                at > 0 ==> {
                    let data = d[at - 1].data;
                    &&& valid == scanned_len(data)
                    &&& valid <= data.len()
                    &&& clean(data.take(valid as int))
                    &&& scan(data.take(valid as int), replay(d.take(at - 1))) == contents_of(
                        d,
                        index_entries(index),
                    )
                    &&& forall|key: Seq<char>| #[trigger]
                        index_entries(index).contains_key(key) && index_entries(index)[key].file_id
                            == d[at - 1].id ==> index_entries(index)[key].offset + index_entries(
                            index,
                        )[key].length <= valid
                },
            decreases n - at,
        {
            proof {
                assert(d.take(at + 1).drop_last() =~= d.take(at as int));
                assert(d.take(at + 1).last() == d[at as int]);
                assert forall|key: Seq<char>| #[trigger]
                    index_entries(index).contains_key(key) implies index_entries(index)[key].file_id
                    < d[at as int].id by {
                    assert(d[at - 1].id < d[at as int].id);
                }
            }
            let found = scan_segment(&mut index, &dir, at, size);
            valid = found.0;
            size = found.1;
            let ghost before = readers@;
            readers.hold(dir.id_at(at));
            proof {
                assert(!before.contains(d[at as int].id)) by {
                    if before.contains(d[at as int].id) {
                        let i = choose|i: int| 0 <= i < before.len() && before[i] == d[at as int].id;
                        assert(d[i].id < d[at as int].id);
                    }
                }
                assert(readers@ =~= ids_of(d.take(at + 1)));
            }
            at = at + 1;
        }
        proof {
            assert(d.take(n as int) =~= d);
        }
        if n == 0 {
            dir.create(0);
            readers.hold(0);
            proof {
                assert(readers@ =~= ids_of(dir@));
                crate::log::lemma_parse_empty();
                assert(dir@.drop_last() =~= d);
                assert(contents_of(dir@, index_entries(index)) =~= Map::<
                    Seq<char>,
                    Seq<char>,
                >::empty());
                assert(entries_ok(dir@, index_entries(index), 0));
            }
        } else {
            proof {
                lemma_truncate_keeps(d, index_entries(index), 0, valid as int);
                assert(d.take(n - 1) =~= d.drop_last());
                assert(ids_of(d) =~= ids_of(truncated(d, valid as int)));
            }
            dir.truncate_last(valid);
            proof {
                assert(dir@.last().data == d.last().data.take(valid as int));
            }
        }
        let last = dir.len() - 1;
        let active = dir.id_at(last);
        let end = dir.data_at(last).len();
        let shared = Shared { index, dir, compaction_number: 0 };
        let writer = Writer {
            current_readers: readers.clone(),
            current_writer: BufWriterWithPos::new(end as u64),
            current_file_id: active,
            size_for_compaction: size,
        };
        KvStore { shared, current_readers: readers, current_writer: writer }
    }

    /// Opens the store that a listing of files describes: the files whose
    /// names are segment names are its segments, every other file is
    /// ignored. Fails with `Io` where two files claim the same segment, and
    /// only then.
    pub fn open(files: Vec<(String, Vec<u8>)>) -> (r: Result<KvStore, KVStoreError>)
        ensures
            match listing(files_view(files@)) {
                Some(d) => r matches Ok(store) && store.wf() && store.recovered_from(d),
                None => r matches Err(e) && e == KVStoreError::Io,
            },
    {
        match Directory::from_files(files) {
            Ok(dir) => Ok(KvStore::recover(dir)),
            Err(e) => Err(e),
        }
    }

    /// A reader of this store that holds no segment open yet.
    pub fn new_reader(&self) -> (reader: Reader)
        ensures
            reader@ == Seq::<u64>::empty(),
            reader.wf(),
    {
        self.current_readers.clone()
    }

    /// The segments that `reader` holds open after it read `key`: those it
    /// held that are not retired, and the segment that the index points at
    /// for `key`. A key that the index does not hold leaves the reader as
    /// it was.
    pub open spec fn after_read(&self, held: Seq<u64>, key: Seq<char>) -> Seq<u64> {
        if self@.contains_key(key) {
            let id = self.entries()[key].file_id;
            let kept = not_retired(held, self.watermark());
            if kept.contains(id) {
                kept
            } else {
                kept.push(id)
            }
        } else {
            held
        }
    }

    /// The value that the store holds under `key`, if it holds one, read
    /// through `reader`.
    pub fn get_with(&self, reader: &mut Reader, key: String) -> (r: Result<
        Option<String>,
        KVStoreError,
    >)
        requires
            self.wf(),
            old(reader).wf(),
        ensures
            match r {
                Ok(Some(value)) => self@.contains_key(key@) && value@ == self@[key@],
                Ok(None) => !self@.contains_key(key@),
                Err(_) => false,
            },
            final(reader)@ == self.after_read(old(reader)@, key@),
            final(reader).wf(),
    {
        match index_get(&self.shared.index, &key) {
            Some(pos) => {
                proof {
                    self.shared.lemma_read_gives_value(key@);
                }
                reader.read_command(&self.shared.dir, self.shared.compaction_number, &pos)
            },
            None => Ok(None),
        }
    }

    /// The value that the store holds under `key`, if it holds one. A key
    /// that the index holds is read from its segment, through the store's
    /// own reader.
    pub fn get(&mut self, key: String) -> (r: Result<Option<String>, KVStoreError>)
        requires
            old(self).wf(),
        ensures
            final(self).wf(),
            final(self).directory() == old(self).directory(),
            final(self).entries() == old(self).entries(),
            final(self).watermark() == old(self).watermark(),
            final(self).active() == old(self).active(),
            final(self).reclaimable() == old(self).reclaimable(),
            final(self).writer_segments() == old(self).writer_segments(),
            final(self)@ == old(self)@,
            match r {
                Ok(Some(value)) => old(self)@.contains_key(key@) && value@ == old(self)@[key@],
                Ok(None) => !old(self)@.contains_key(key@),
                Err(_) => false,
            },
            final(self).open_segments() == old(self).after_read(old(self).open_segments(), key@),
    {
        match index_get(&self.shared.index, &key) {
            Some(pos) => {
                proof {
                    self.shared.lemma_read_gives_value(key@);
                }
                self.current_readers.read_command(
                    &self.shared.dir,
                    self.shared.compaction_number,
                    &pos,
                )
            },
            None => Ok(None),
        }
    }

    /// Stores `value` under `key`. See `Writer::set`.
    pub fn set(&mut self, key: String, value: String) -> (r: Result<(), KVStoreError>)
        requires
            old(self).wf(),
        ensures
            final(self).wf(),
            final(self).open_segments() == old(self).open_segments(),
            final(self).watermark() >= old(self).watermark(),
            r is Ok,
            ({
                    let record = set_record(key@, value@);
                    let size = counted(old(self).reclaimable() as int, record.len() as int);
                    &&& final(self)@ == old(self)@.insert(key@, value@)
                    &&& if compaction_due(size, old(self).active()) {
                        &&& final(self).after_compaction(*old(self))
                        &&& same_records(
                            appended(old(self).directory(), record),
                            old(self).entries().insert(
                                key@,
                                tail_pos(old(self).directory(), record),
                            ),
                            final(self).directory(),
                            final(self).entries(),
                        )
                    } else {
                        &&& final(self).directory() == appended(old(self).directory(), record)
                        &&& final(self).entries() == old(self).entries().insert(
                            key@,
                            tail_pos(old(self).directory(), record),
                        )
                        &&& final(self).watermark() == old(self).watermark()
                        &&& final(self).active() == old(self).active()
                        &&& final(self).reclaimable() == size
                        &&& final(self).writer_segments() == old(self).writer_segments()
                    }
            }),
    {
        self.current_writer.set(&mut self.shared, key, value)
    }

    /// Removes `key`. See `Writer::remove`.
    pub fn remove(&mut self, key: String) -> (r: Result<(), KVStoreError>)
        requires
            old(self).wf(),
        ensures
            final(self).wf(),
            final(self).open_segments() == old(self).open_segments(),
            final(self).watermark() >= old(self).watermark(),
            r is Ok <==> old(self)@.contains_key(key@),
            match r {
                Ok(()) => {
                    let record = rm_record(key@);
                    let size = counted(
                        counted(
                            old(self).reclaimable() as int,
                            old(self).entries()[key@].length as int,
                        ) as int,
                        record.len() as int,
                    );
                    &&& old(self)@.contains_key(key@)
                    &&& final(self)@ == old(self)@.remove(key@)
                    &&& if compaction_due(size, old(self).active()) {
                        &&& final(self).after_compaction(*old(self))
                        &&& same_records(
                            appended(old(self).directory(), record),
                            old(self).entries().remove(key@),
                            final(self).directory(),
                            final(self).entries(),
                        )
                    } else {
                        &&& final(self).directory() == appended(old(self).directory(), record)
                        &&& final(self).entries() == old(self).entries().remove(key@)
                        &&& final(self).watermark() == old(self).watermark()
                        &&& final(self).active() == old(self).active()
                        &&& final(self).reclaimable() == size
                        &&& final(self).writer_segments() == old(self).writer_segments()
                    }
                },
                Err(e) => e == KVStoreError::KeyNotFound && *final(self) == *old(self),
            },
    {
        self.current_writer.remove(&mut self.shared, key)
    }

    /// The segment ids among the names of a directory, in ascending order.
    pub fn sorted_file_ids(names: &Vec<String>) -> (ids: Vec<u64>)
        ensures
            sorted(ids@),
            ids@.to_multiset() == valid_ids(names_view(names@)).to_multiset(),
    {
        sorted_ids(names)
    }

    /// The ids of the segments, in ascending order.
    pub fn segment_ids(&self) -> (ids: Vec<u64>)
        ensures
            ids@ == ids_of(self.directory()),
    {
        let ids = self.shared.dir.ids();
        assert(ids@ =~= ids_of(self.directory()));
        ids
    }

    /// The bytes of the segment `id`, if the store has it.
    pub fn segment(&self, id: u64) -> (data: Option<&Vec<u8>>)
        requires
            self.wf(),
        ensures
            match data {
                Some(bytes) => lookup(self.directory(), id) == Some(bytes@),
                None => lookup(self.directory(), id) is None,
            },
    {
        match self.shared.dir.position(id) {
            Some(at) => {
                proof {
                    lemma_lookup_at(self.shared.directory(), at as int);
                }
                Some(self.shared.dir.data_at(at))
            },
            None => None,
        }
    }

    /// Where the index points for `key`, if it holds the key.
    pub fn locate(&self, key: &String) -> (pos: Option<CommandPos>)
        ensures
            pos == if self.entries().contains_key(key@) {
                Some(self.entries()[key@])
            } else {
                None
            },
    {
        index_get(&self.shared.index, key)
    }

    /// The compaction watermark.
    pub fn compaction_number(&self) -> (watermark: u64)
        ensures
            watermark == self.watermark(),
    {
        self.shared.compaction_number
    }

    /// The id of the active segment.
    pub fn current_file_id(&self) -> (id: u64)
        ensures
            id == self.active(),
    {
        self.current_writer.current_file_id
    }

    /// How many bytes of the log the writer counts as reclaimable.
    pub fn size_for_compaction(&self) -> (size: u64)
        ensures
            size == self.reclaimable(),
    {
        self.current_writer.size_for_compaction
    }

    /// The ids of the segments that the store's reader holds open.
    pub fn reader_segments(&self) -> (ids: Vec<u64>)
        ensures
            ids@ == self.open_segments(),
    {
        self.current_readers.open_segments()
    }

    /// Compacts now, whatever the count of reclaimable bytes. See
    /// `Writer::compact`. Where no two fresh segment ids are left above the
    /// active one, nothing happens, and `false` is returned.
    pub fn compact(&mut self) -> (done: bool)
        requires
            old(self).wf(),
        ensures
            final(self).wf(),
            final(self)@ == old(self)@,
            final(self).open_segments() == old(self).open_segments(),
            done == (old(self).active() <= u64::MAX - 2),
            if done {
                &&& final(self).after_compaction(*old(self))
                &&& same_records(
                    old(self).directory(),
                    old(self).entries(),
                    final(self).directory(),
                    final(self).entries(),
                )
            } else {
                *final(self) == *old(self)
            },
    {
        if self.current_writer.current_file_id <= u64::MAX - 2 {
            let _ = self.current_writer.compact(&mut self.shared);
            true
        } else {
            false
        }
    }

    /// The files that hold the segments: each segment under its name.
    pub fn files(&self) -> (files: Vec<(String, Vec<u8>)>)
        ensures
            files_view(files@) == files_of(self.directory()),
    {
        let mut files: Vec<(String, Vec<u8>)> = Vec::new();
        let n = self.shared.dir.len();
        let mut i: usize = 0;
        while i < n
            invariant
                n == self.shared.dir@.len(),
                i <= n,
                files@.len() == i,
                forall|k: int|
                    0 <= k < i ==> (#[trigger] files@[k]).0@ == crate::names::segment_name(
                        self.shared.dir@[k].id,
                    ) && files@[k].1@ == self.shared.dir@[k].data,
            decreases n - i,
        {
            let name = crate::names::segment_file_name(self.shared.dir.id_at(i));
            let data = slice_to_vec(self.shared.dir.data_at(i).as_slice());
            files.push((name, data));
            i = i + 1;
        }
        assert(files_view(files@) =~= files_of(self.directory()));
        files
    }

    /// What the file of the segment `id` needs to hold what the segment
    /// holds, where that file has `on_disk` bytes (`None`: there is no such
    /// file).
    pub fn file_op(&self, id: u64, on_disk: Option<u64>) -> (op: FileOp)
        requires
            self.wf(),
        ensures
            op == file_op(lookup(self.directory(), id), on_disk),
    {
        self.shared.dir.file_op(id, on_disk)
    }

    /// Closes the store and opens it again from its files. The store that
    /// comes back holds what this one holds, in the same segments.
    pub fn reopen(&self) -> (again: KvStore)
        requires
            self.wf(),
        ensures
            again.wf(),
            again@ == self@,
            again.recovered_from(self.directory()),
            again.directory() == self.directory(),
    {
        let files = self.files();
        proof {
            lemma_listing_of_files(self.directory());
        }
        match KvStore::open(files) {
            Ok(again) => {
                proof {
                    self.lemma_reopen(again);
                }
                again
            },
            Err(_) => vstd::pervasive::unreached(),
        }
    }

    /// Every entry of the index points at one whole `SET` record of its
    /// key, in a segment that the store has, and the value of that record
    /// is what the store holds under the key.
    pub proof fn lemma_entry_points_at_record(self, key: Seq<char>)
        requires
            self.wf(),
            self.entries().contains_key(key),
        ensures
            self@.contains_key(key),
            lookup(self.directory(), self.entries()[key].file_id) matches Some(data) && {
                &&& self.entries()[key].offset + self.entries()[key].length <= data.len()
                &&& parse_record(slice_at(data, self.entries()[key])) == Some(
                    (CommandView::SET(key, self@[key]), self.entries()[key].length as int),
                )
            },
    {
        let d = self.directory();
        let pos = self.entries()[key];
        assert(entry_ok(d, self.watermark(), key, pos));
        let data = lookup(d, pos.file_id).unwrap();
        crate::command::lemma_stable_record_parses(
            slice_at(data, pos),
            CommandView::SET(key, value_at(d, pos)),
        );
    }

    /// No entry of the index points below the watermark, and a reader that
    /// has read a key holds no segment below the watermark open.
    pub proof fn lemma_reads_no_retired_segment(self, held_before: Seq<u64>, key: Seq<char>)
        requires
            self.wf(),
            self@.contains_key(key),
        ensures
            self.entries()[key].file_id >= self.watermark(),
            has_segment(self.directory(), self.entries()[key].file_id),
            forall|i: int|
                0 <= i < self.after_read(held_before, key).len() ==> #[trigger] self.after_read(
                    held_before,
                    key,
                )[i] >= self.watermark(),
    {
        let pos = self.entries()[key];
        assert(entry_ok(self.directory(), self.watermark(), key, pos));
        lemma_not_retired(held_before, self.watermark());
    }

    /// Every segment of the store is at or above the watermark.
    pub proof fn lemma_no_segment_is_retired(self, i: int)
        requires
            self.wf(),
            0 <= i < self.directory().len(),
        ensures
            self.directory()[i].id >= self.watermark(),
            self.watermark() <= self.active(),
    {
        let d = self.directory();
        if i > 0 {
            assert(d[0].id < d[i].id);
        }
        if d.len() > 1 {
            assert(d[0].id < d.last().id);
        }
    }

    /// What the store holds is what its segments rebuild: replaying the
    /// directory gives the store's map, the files of the directory describe
    /// the directory, and so a store that is recovered from those files
    /// holds what this store holds.
    pub proof fn lemma_reopen(self, again: KvStore)
        requires
            self.wf(),
            again.recovered_from(self.directory()),
        ensures
            replay(self.directory()) == self@,
            listing(files_of(self.directory())) == Some(self.directory()),
            again@ == self@,
            again.directory() == self.directory(),
    {
        let d = self.directory();
        lemma_listing_of_files(d);
        crate::log::lemma_clean_scanned(d.last().data);
        assert(d.last().data.take(d.last().data.len() as int) =~= d.last().data);
        assert(truncated(d, scanned_len(d.last().data)) =~= d);
    }

    /// Opening twice gives the same: a store recovered from the directory
    /// of a recovered store holds what that store holds, in the same
    /// directory.
    pub proof fn lemma_open_is_idempotent(d: Seq<SegmentView>, first: KvStore, second: KvStore)
        requires
            first.wf(),
            first.recovered_from(d),
            second.recovered_from(first.directory()),
        ensures
            second@ == first@,
            second@ == replay(d),
            second.directory() == first.directory(),
    {
        first.lemma_reopen(second);
    }

    /// The ids of the segments that the writer holds open for reading.
    pub fn writer_reader_segments(&self) -> (ids: Vec<u64>)
        ensures
            ids@ == self.writer_segments(),
    {
        self.current_writer.current_readers.open_segments()
    }

    /// What a compaction leaves of the store `before`.
    pub open spec fn after_compaction(&self, before: KvStore) -> bool {
        &&& self.watermark() == before.active() + 1
        &&& self.active() == before.active() + 2
        &&& self.reclaimable() == 0
        &&& self.directory().len() == 2
        &&& self.directory()[0].id == before.active() + 1
        &&& self.directory()[1].id == before.active() + 2
        &&& self.directory()[1].data == Seq::<u8>::empty()
        &&& forall|key: Seq<char>| #[trigger]
            self.entries().contains_key(key) ==> self.entries()[key].file_id == before.active()
                + 1
        &&& forall|i: int|
            0 <= i < self.writer_segments().len() ==> #[trigger] self.writer_segments()[i]
                >= self.watermark()
        &&& tiles(self.entries(), self.watermark(), self.directory()[0].data.len() as int)
    }
}

impl KvsEngine for KvStore {
    open spec fn inv(&self) -> bool {
        self.wf()
    }

    /// As `KvStore::set`.
    fn set(&mut self, key: String, value: String) -> (r: Result<(), KVStoreError>)
        ensures
            r is Ok,
            final(self)@ == old(self)@.insert(key@, value@),
    {
        KvStore::set(self, key, value)
    }

    /// As `KvStore::get`.
    fn get(&mut self, key: String) -> (r: Result<Option<String>, KVStoreError>)
        ensures
            final(self)@ == old(self)@,
            match r {
                Ok(Some(value)) => old(self)@.contains_key(key@) && value@ == old(self)@[key@],
                Ok(None) => !old(self)@.contains_key(key@),
                Err(_) => false,
            },
    {
        KvStore::get(self, key)
    }

    /// As `KvStore::remove`.
    fn remove(&mut self, key: String) -> (r: Result<(), KVStoreError>)
        ensures
            r is Ok <==> old(self)@.contains_key(key@),
            final(self)@ == if r is Ok {
                old(self)@.remove(key@)
            } else {
                old(self)@
            },
            r is Err ==> r == Err::<(), KVStoreError>(KVStoreError::KeyNotFound),
    {
        KvStore::remove(self, key)
    }
}

} // verus!
