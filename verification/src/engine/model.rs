//! What it means for an index and a directory to belong together, and why
//! each step of the writer keeps them so.

use vstd::prelude::*;
use crate::command::{lemma_stable_record_parses, parse_record, stable_record, CommandView};
use crate::index::CommandPos;
use crate::log::{apply, clean, lemma_parse_empty, lemma_scan_append, replay, SegmentView};
use crate::segment::{ascending, has_segment, index_of, lemma_lookup_at, lookup};

verus! {

/// What `a + b` is in a counter that stops at the largest `u64`.
pub open spec fn counted(a: int, b: int) -> u64 {
    if a + b > u64::MAX {
        u64::MAX
    } else {
        (a + b) as u64
    }
}

/// What a map holds under `key`.
pub open spec fn held(m: Map<Seq<char>, Seq<char>>, key: Seq<char>) -> Option<Seq<char>> {
    if m.contains_key(key) {
        Some(m[key])
    } else {
        None
    }
}

/// What recovery rebuilds: the index, and the count of reclaimable bytes.
pub struct Recovered {
    pub entries: Map<Seq<char>, CommandPos>,
    pub reclaimable: u64,
}

/// What one record does to the index and the count. A `SET` points the
/// index at itself and counts its own length. An `RM` drops the entry of
/// its key, and counts the length of the record that the entry pointed at
/// and its own.
pub open spec fn record_step(st: Recovered, c: CommandView, pos: CommandPos) -> Recovered {
    match c {
        CommandView::SET(key, _) => Recovered {
            entries: st.entries.insert(key, pos),
            reclaimable: counted(st.reclaimable as int, pos.length as int),
        },
        CommandView::RM(key) => Recovered {
            entries: st.entries.remove(key),
            reclaimable: counted(
                counted(
                    st.reclaimable as int,
                    if st.entries.contains_key(key) {
                        st.entries[key].length as int
                    } else {
                        0
                    },
                ) as int,
                pos.length as int,
            ),
        },
    }
}

/// What the records of one segment, from `off` on, do to the index and the
/// count.
pub open spec fn recover_segment(data: Seq<u8>, id: u64, off: int, st: Recovered) -> Recovered
    decreases data.len() - off,
{
    if 0 <= off <= data.len() {
        match parse_record(data.skip(off)) {
            Some((c, n)) => if 0 < n <= data.len() - off {
                recover_segment(
                    data,
                    id,
                    off + n,
                    record_step(
                        st,
                        c,
                        CommandPos { offset: off as u64, length: n as u64, file_id: id },
                    ),
                )
            } else {
                st
            },
            None => st,
        }
    } else {
        st
    }
}

/// The index and the count that recovery rebuilds from a directory.
pub open spec fn recover_dir(d: Seq<SegmentView>) -> Recovered
    decreases d.len(),
{
    if d.len() == 0 {
        Recovered { entries: Map::empty(), reclaimable: 0 }
    } else {
        recover_segment(d.last().data, d.last().id, 0, recover_dir(d.drop_last()))
    }
}

/// The bytes that `pos` points at in `data`.
pub open spec fn slice_at(data: Seq<u8>, pos: CommandPos) -> Seq<u8> {
    data.subrange(pos.offset as int, pos.offset + pos.length)
}

/// The value of the `SET` record that `pos` points at.
pub open spec fn value_at(d: Seq<SegmentView>, pos: CommandPos) -> Seq<char> {
    match lookup(d, pos.file_id) {
        Some(data) => match parse_record(slice_at(data, pos)) {
            Some((CommandView::SET(_, value), _)) => value,
            _ => Seq::empty(),
        },
        None => Seq::empty(),
    }
}

/// `pos` points at a whole `SET` record for `key`, in a segment that has
/// not been retired.
pub open spec fn entry_ok(d: Seq<SegmentView>, watermark: u64, key: Seq<char>, pos: CommandPos) -> bool {
    &&& pos.file_id >= watermark
    &&& lookup(d, pos.file_id) matches Some(data) && {
        &&& pos.offset + pos.length <= data.len()
        &&& stable_record(slice_at(data, pos), CommandView::SET(key, value_at(d, pos)))
    }
}

/// The map from keys to values that an index describes.
pub open spec fn contents_of(d: Seq<SegmentView>, idx: Map<Seq<char>, CommandPos>) -> Map<
    Seq<char>,
    Seq<char>,
> {
    Map::new(|key: Seq<char>| idx.contains_key(key), |key: Seq<char>| value_at(d, idx[key]))
}

/// Every entry of the index points at its record.
pub open spec fn entries_ok(d: Seq<SegmentView>, idx: Map<Seq<char>, CommandPos>, watermark: u64) -> bool {
    forall|key: Seq<char>| #[trigger] idx.contains_key(key) ==> entry_ok(d, watermark, key, idx[key])
}

/// The directory and the index belong together: the segments are in order
/// and none is retired, the active one is records from end to end, every
/// entry points at its record, and replaying the directory rebuilds what the
/// index describes.
pub open spec fn store_wf(d: Seq<SegmentView>, idx: Map<Seq<char>, CommandPos>, watermark: u64) -> bool {
    &&& d.len() > 0
    &&& ascending(d)
    &&& d[0].id >= watermark
    &&& clean(d.last().data)
    &&& entries_ok(d, idx, watermark)
    &&& replay(d) == contents_of(d, idx)
}

/// `d2` holds every segment of `d`, each possibly longer.
pub open spec fn extends(d: Seq<SegmentView>, d2: Seq<SegmentView>) -> bool {
    forall|id: u64| #[trigger]
        has_segment(d, id) ==> has_segment(d2, id) && lookup(d, id).unwrap().is_prefix_of(
            lookup(d2, id).unwrap(),
        )
}

/// A segment that only grew still holds every record it held.
pub proof fn lemma_entry_extends(
    d: Seq<SegmentView>,
    d2: Seq<SegmentView>,
    watermark: u64,
    key: Seq<char>,
    pos: CommandPos,
)
    requires
        extends(d, d2),
        entry_ok(d, watermark, key, pos),
    ensures
        entry_ok(d2, watermark, key, pos),
        value_at(d2, pos) == value_at(d, pos),
{
    assert(has_segment(d, pos.file_id));
    let data = lookup(d, pos.file_id).unwrap();
    let data2 = lookup(d2, pos.file_id).unwrap();
    assert(data =~= data2.subrange(0, data.len() as int));
    assert(slice_at(data, pos) =~= slice_at(data2, pos));
}

/// The directory with `r` appended to its last segment.
pub open spec fn appended(d: Seq<SegmentView>, r: Seq<u8>) -> Seq<SegmentView> {
    d.update(d.len() - 1, SegmentView { id: d.last().id, data: d.last().data + r })
}

/// The directory with one more, empty segment.
pub open spec fn with_segment(d: Seq<SegmentView>, id: u64) -> Seq<SegmentView> {
    d.push(SegmentView { id, data: Seq::empty() })
}

/// Where a record stands that was appended to `d`.
pub open spec fn tail_pos(d: Seq<SegmentView>, r: Seq<u8>) -> CommandPos {
    CommandPos {
        offset: d.last().data.len() as u64,
        length: r.len() as u64,
        file_id: d.last().id,
    }
}

/// Appending to the last segment keeps the order, and is an extension.
pub proof fn lemma_appended(d: Seq<SegmentView>, r: Seq<u8>)
    requires
        d.len() > 0,
        ascending(d),
    ensures
        ascending(appended(d, r)),
        extends(d, appended(d, r)),
        lookup(appended(d, r), d.last().id) == Some(d.last().data + r),
        appended(d, r).len() == d.len(),
{
    let d2 = appended(d, r);
    assert forall|i: int, j: int| 0 <= i < j < d2.len() implies d2[i].id < d2[j].id by {
        assert(d[i].id < d[j].id);
    }
    lemma_lookup_at(d2, d.len() - 1);
    assert forall|id: u64| #[trigger] has_segment(d, id) implies has_segment(d2, id) && lookup(
        d,
        id,
    ).unwrap().is_prefix_of(lookup(d2, id).unwrap()) by {
        let i = index_of(d, id);
        lemma_lookup_at(d, i);
        assert(d2[i].id == id);
        lemma_lookup_at(d2, i);
        if i == d.len() - 1 {
            assert(d.last().data =~= (d.last().data + r).subrange(0, d.last().data.len() as int));
        } else {
            assert(d[i].data =~= d[i].data.subrange(0, d[i].data.len() as int));
        }
    }
}

/// Adding an empty segment above all others keeps the order, and is an
/// extension.
pub proof fn lemma_with_segment(d: Seq<SegmentView>, id: u64)
    requires
        ascending(d),
        d.len() > 0 ==> d.last().id < id,
    ensures
        ascending(with_segment(d, id)),
        extends(d, with_segment(d, id)),
        lookup(with_segment(d, id), id) == Some(Seq::<u8>::empty()),
{
    let d2 = with_segment(d, id);
    assert forall|i: int, j: int| 0 <= i < j < d2.len() implies d2[i].id < d2[j].id by {
        if j == d.len() {
            assert(d[i].id <= d.last().id);
        } else {
            assert(d[i].id < d[j].id);
        }
    }
    lemma_lookup_at(d2, d.len() as int);
    assert forall|k: u64| #[trigger] has_segment(d, k) implies has_segment(d2, k) && lookup(
        d,
        k,
    ).unwrap().is_prefix_of(lookup(d2, k).unwrap()) by {
        let i = index_of(d, k);
        lemma_lookup_at(d, i);
        assert(d2[i].id == k);
        lemma_lookup_at(d2, i);
        assert(d[i].data =~= d[i].data.subrange(0, d[i].data.len() as int));
    }
}

/// All entries stay right when the directory only grows.
pub proof fn lemma_entries_extend(
    d: Seq<SegmentView>,
    d2: Seq<SegmentView>,
    idx: Map<Seq<char>, CommandPos>,
    watermark: u64,
)
    requires
        extends(d, d2),
        entries_ok(d, idx, watermark),
    ensures
        entries_ok(d2, idx, watermark),
        contents_of(d2, idx) == contents_of(d, idx),
{
    assert forall|key: Seq<char>| #[trigger] idx.contains_key(key) implies entry_ok(
        d2,
        watermark,
        key,
        idx[key],
    ) && value_at(d2, idx[key]) == value_at(d, idx[key]) by {
        lemma_entry_extends(d, d2, watermark, key, idx[key]);
    }
    assert(contents_of(d2, idx) =~= contents_of(d, idx));
}

/// A new, empty active segment changes nothing that the store holds.
pub proof fn lemma_create_keeps(
    d: Seq<SegmentView>,
    idx: Map<Seq<char>, CommandPos>,
    watermark: u64,
    id: u64,
)
    requires
        store_wf(d, idx, watermark),
        d.last().id < id,
    ensures
        store_wf(with_segment(d, id), idx, watermark),
        contents_of(with_segment(d, id), idx) == contents_of(d, idx),
{
    let d2 = with_segment(d, id);
    lemma_with_segment(d, id);
    lemma_entries_extend(d, d2, idx, watermark);
    assert(d2.drop_last() =~= d);
    lemma_parse_empty();
    assert(d2[0] == d[0]);
}

/// The record at the end of a directory is where `tail_pos` says.
pub proof fn lemma_tail_entry(
    d: Seq<SegmentView>,
    watermark: u64,
    r: Seq<u8>,
    key: Seq<char>,
    value: Seq<char>,
)
    requires
        d.len() > 0,
        ascending(d),
        d[0].id >= watermark,
        stable_record(r, CommandView::SET(key, value)),
        d.last().data.len() + r.len() <= u64::MAX,
    ensures
        entry_ok(appended(d, r), watermark, key, tail_pos(d, r)),
        value_at(appended(d, r), tail_pos(d, r)) == value,
{
    let d2 = appended(d, r);
    let pos = tail_pos(d, r);
    lemma_appended(d, r);
    let data2 = d.last().data + r;
    assert(slice_at(data2, pos) =~= r);
    lemma_stable_record_parses(r, CommandView::SET(key, value));
    if d.len() > 1 {
        assert(d[0].id < d.last().id);
    }
}

/// Appending `SET(key, value)` and pointing the index at it makes the store
/// hold `value` under `key`, and everything else as before.
pub proof fn lemma_set_keeps(
    d: Seq<SegmentView>,
    idx: Map<Seq<char>, CommandPos>,
    watermark: u64,
    r: Seq<u8>,
    key: Seq<char>,
    value: Seq<char>,
)
    requires
        store_wf(d, idx, watermark),
        stable_record(r, CommandView::SET(key, value)),
        d.last().data.len() + r.len() <= u64::MAX,
    ensures
        store_wf(appended(d, r), idx.insert(key, tail_pos(d, r)), watermark),
        contents_of(appended(d, r), idx.insert(key, tail_pos(d, r))) == contents_of(
            d,
            idx,
        ).insert(key, value),
{
    let d2 = appended(d, r);
    let pos = tail_pos(d, r);
    let idx2 = idx.insert(key, pos);
    lemma_appended(d, r);
    lemma_entries_extend(d, d2, idx, watermark);
    lemma_tail_entry(d, watermark, r, key, value);
    assert forall|k: Seq<char>| #[trigger] idx2.contains_key(k) implies entry_ok(
        d2,
        watermark,
        k,
        idx2[k],
    ) by {
        if k != key {
            assert(idx.contains_key(k));
        }
    }
    assert(contents_of(d2, idx2) =~= contents_of(d, idx).insert(key, value)) by {
        assert forall|k: Seq<char>| idx2.contains_key(k) implies #[trigger] contents_of(d2, idx2)[k]
            == contents_of(d, idx).insert(key, value)[k] by {
            if k != key {
                assert(idx.contains_key(k));
                lemma_entry_extends(d, d2, watermark, k, idx[k]);
            }
        }
    }
    lemma_scan_append(d.last().data, r, CommandView::SET(key, value), replay(d.drop_last()));
    assert(d2.drop_last() =~= d.drop_last());
    assert(d2[0].id == d[0].id);
}

/// Appending `RM(key)` and dropping the entry of `key` makes the store hold
/// nothing under `key`, and everything else as before.
pub proof fn lemma_remove_keeps(
    d: Seq<SegmentView>,
    idx: Map<Seq<char>, CommandPos>,
    watermark: u64,
    r: Seq<u8>,
    key: Seq<char>,
)
    requires
        store_wf(d, idx, watermark),
        stable_record(r, CommandView::RM(key)),
    ensures
        store_wf(appended(d, r), idx.remove(key), watermark),
        contents_of(appended(d, r), idx.remove(key)) == contents_of(d, idx).remove(key),
{
    let d2 = appended(d, r);
    let idx2 = idx.remove(key);
    lemma_appended(d, r);
    lemma_entries_extend(d, d2, idx, watermark);
    assert forall|k: Seq<char>| #[trigger] idx2.contains_key(k) implies entry_ok(
        d2,
        watermark,
        k,
        idx2[k],
    ) by {
        assert(idx.contains_key(k));
    }
    assert(contents_of(d2, idx2) =~= contents_of(d, idx).remove(key)) by {
        assert forall|k: Seq<char>| idx2.contains_key(k) implies #[trigger] contents_of(d2, idx2)[k]
            == contents_of(d, idx).remove(key)[k] by {
            assert(idx.contains_key(k));
            lemma_entry_extends(d, d2, watermark, k, idx[k]);
        }
    }
    lemma_scan_append(d.last().data, r, CommandView::RM(key), replay(d.drop_last()));
    assert(d2.drop_last() =~= d.drop_last());
    assert(d2[0].id == d[0].id);
}

/// Copying the record of a live key to the end of the active segment, and
/// pointing the index at the copy, changes nothing that the store holds.
pub proof fn lemma_relocate_keeps(
    d: Seq<SegmentView>,
    idx: Map<Seq<char>, CommandPos>,
    watermark: u64,
    key: Seq<char>,
)
    requires
        store_wf(d, idx, watermark),
        idx.contains_key(key),
        d.last().data.len() + idx[key].length <= u64::MAX,
    ensures
        ({
            let r = slice_at(lookup(d, idx[key].file_id).unwrap(), idx[key]);
            &&& stable_record(r, CommandView::SET(key, contents_of(d, idx)[key]))
            &&& r.len() == idx[key].length
            &&& store_wf(appended(d, r), idx.insert(key, tail_pos(d, r)), watermark)
            &&& contents_of(appended(d, r), idx.insert(key, tail_pos(d, r))) == contents_of(d, idx)
        }),
{
    let r = slice_at(lookup(d, idx[key].file_id).unwrap(), idx[key]);
    let value = contents_of(d, idx)[key];
    lemma_set_keeps(d, idx, watermark, r, key, value);
    assert(contents_of(d, idx).insert(key, value) =~= contents_of(d, idx));
}

/// Pointing the index at a whole `SET` record for `key` makes it describe
/// that record's value under `key`, and everything else as before.
pub proof fn lemma_point_at(
    d: Seq<SegmentView>,
    idx: Map<Seq<char>, CommandPos>,
    watermark: u64,
    key: Seq<char>,
    value: Seq<char>,
    pos: CommandPos,
)
    requires
        entries_ok(d, idx, watermark),
        pos.file_id >= watermark,
        lookup(d, pos.file_id) is Some,
        pos.offset + pos.length <= lookup(d, pos.file_id).unwrap().len(),
        stable_record(
            slice_at(lookup(d, pos.file_id).unwrap(), pos),
            CommandView::SET(key, value),
        ),
    ensures
        entries_ok(d, idx.insert(key, pos), watermark),
        contents_of(d, idx.insert(key, pos)) == contents_of(d, idx).insert(key, value),
{
    let idx2 = idx.insert(key, pos);
    lemma_stable_record_parses(
        slice_at(lookup(d, pos.file_id).unwrap(), pos),
        CommandView::SET(key, value),
    );
    assert forall|k: Seq<char>| #[trigger] idx2.contains_key(k) implies entry_ok(
        d,
        watermark,
        k,
        idx2[k],
    ) by {
        if k != key {
            assert(idx.contains_key(k));
        }
    }
    assert(contents_of(d, idx2) =~= contents_of(d, idx).insert(key, value));
}

/// Dropping the entry of `key` makes the index describe nothing under
/// `key`, and everything else as before.
pub proof fn lemma_drop_entry(
    d: Seq<SegmentView>,
    idx: Map<Seq<char>, CommandPos>,
    watermark: u64,
    key: Seq<char>,
)
    requires
        entries_ok(d, idx, watermark),
    ensures
        entries_ok(d, idx.remove(key), watermark),
        contents_of(d, idx.remove(key)) == contents_of(d, idx).remove(key),
{
    let idx2 = idx.remove(key);
    assert forall|k: Seq<char>| #[trigger] idx2.contains_key(k) implies entry_ok(
        d,
        watermark,
        k,
        idx2[k],
    ) by {
        assert(idx.contains_key(k));
    }
    assert(contents_of(d, idx2) =~= contents_of(d, idx).remove(key));
}

/// The directory with its last segment cut down to `n` bytes.
pub open spec fn truncated(d: Seq<SegmentView>, n: int) -> Seq<SegmentView> {
    d.update(d.len() - 1, SegmentView { id: d.last().id, data: d.last().data.take(n) })
}

/// Cutting the last segment behind the last record that anything points
/// at keeps every entry right.
pub proof fn lemma_truncate_keeps(
    d: Seq<SegmentView>,
    idx: Map<Seq<char>, CommandPos>,
    watermark: u64,
    n: int,
)
    requires
        d.len() > 0,
        ascending(d),
        0 <= n <= d.last().data.len(),
        entries_ok(d, idx, watermark),
        forall|key: Seq<char>| #[trigger]
            idx.contains_key(key) && idx[key].file_id == d.last().id ==> idx[key].offset
                + idx[key].length <= n,
    ensures
        ascending(truncated(d, n)),
        entries_ok(truncated(d, n), idx, watermark),
        contents_of(truncated(d, n), idx) == contents_of(d, idx),
        truncated(d, n).drop_last() == d.drop_last(),
{
    let d2 = truncated(d, n);
    assert forall|i: int, j: int| 0 <= i < j < d2.len() implies d2[i].id < d2[j].id by {
        assert(d[i].id < d[j].id);
    }
    assert forall|key: Seq<char>| #[trigger] idx.contains_key(key) implies entry_ok(
        d2,
        watermark,
        key,
        idx[key],
    ) && value_at(d2, idx[key]) == value_at(d, idx[key]) by {
        let pos = idx[key];
        assert(entry_ok(d, watermark, key, pos));
        let i = index_of(d, pos.file_id);
        lemma_lookup_at(d, i);
        assert(d2[i].id == pos.file_id);
        lemma_lookup_at(d2, i);
        if i == d.len() - 1 {
            assert(slice_at(d.last().data, pos) =~= slice_at(d.last().data.take(n), pos));
        }
    }
    assert(contents_of(d2, idx) =~= contents_of(d, idx));
    assert(d2.drop_last() =~= d.drop_last());
}

/// Once every entry points into the segment at `j` or a later one, and the
/// segments from `j` on rebuild the whole store when replayed, the segments
/// before `j` can go, and the watermark can rise to the id at `j`.
pub proof fn lemma_retire_keeps(
    d: Seq<SegmentView>,
    idx: Map<Seq<char>, CommandPos>,
    watermark: u64,
    j: int,
)
    requires
        store_wf(d, idx, watermark),
        0 <= j < d.len(),
        forall|key: Seq<char>| #[trigger] idx.contains_key(key) ==> idx[key].file_id >= d[j].id,
        replay(d.skip(j)) == contents_of(d, idx),
    ensures
        store_wf(d.skip(j), idx, d[j].id),
        contents_of(d.skip(j), idx) == contents_of(d, idx),
{
    let d2 = d.skip(j);
    assert forall|a: int, b: int| 0 <= a < b < d2.len() implies d2[a].id < d2[b].id by {
        assert(d[a + j].id < d[b + j].id);
    }
    assert(d2.last() == d.last());
    assert forall|key: Seq<char>| #[trigger] idx.contains_key(key) implies entry_ok(
        d2,
        d[j].id,
        key,
        idx[key],
    ) && value_at(d2, idx[key]) == value_at(d, idx[key]) by {
        let pos = idx[key];
        assert(entry_ok(d, watermark, key, pos));
        let i = index_of(d, pos.file_id);
        lemma_lookup_at(d, i);
        if i < j {
            assert(d[i].id < d[j].id);
        }
        assert(d2[i - j] == d[i]);
        lemma_lookup_at(d2, i - j);
    }
    assert(contents_of(d2, idx) =~= contents_of(d, idx));
}

/// The bytes of the record that `pos` points at in `d`.
pub open spec fn record_at(d: Seq<SegmentView>, pos: CommandPos) -> Seq<u8> {
    match lookup(d, pos.file_id) {
        Some(data) => slice_at(data, pos),
        None => Seq::empty(),
    }
}

/// The second index holds the keys of the first, and points for each key
/// at a record of the same bytes.
pub open spec fn same_records(
    d1: Seq<SegmentView>,
    idx1: Map<Seq<char>, CommandPos>,
    d2: Seq<SegmentView>,
    idx2: Map<Seq<char>, CommandPos>,
) -> bool {
    forall|key: Seq<char>|
        #![trigger idx1.contains_key(key)]
        #![trigger idx2.contains_key(key)]
        (idx1.contains_key(key) <==> idx2.contains_key(key)) && (idx1.contains_key(key) ==> {
            &&& idx2[key].length == idx1[key].length
            &&& record_at(d2, idx2[key]) == record_at(d1, idx1[key])
        })
}

/// Records stay the same from one state to a second and on to a third.
pub proof fn lemma_same_records_chain(
    d1: Seq<SegmentView>,
    idx1: Map<Seq<char>, CommandPos>,
    d2: Seq<SegmentView>,
    idx2: Map<Seq<char>, CommandPos>,
    d3: Seq<SegmentView>,
    idx3: Map<Seq<char>, CommandPos>,
)
    requires
        same_records(d1, idx1, d2, idx2),
        same_records(d2, idx2, d3, idx3),
    ensures
        same_records(d1, idx1, d3, idx3),
{
    assert forall|key: Seq<char>|
        #![trigger idx1.contains_key(key)]
        #![trigger idx3.contains_key(key)]
        (idx1.contains_key(key) <==> idx3.contains_key(key)) && (idx1.contains_key(key) ==> {
            &&& idx3[key].length == idx1[key].length
            &&& record_at(d3, idx3[key]) == record_at(d1, idx1[key])
        }) by {
        assert(idx1.contains_key(key) <==> idx2.contains_key(key));
        assert(idx2.contains_key(key) <==> idx3.contains_key(key));
    }
}

/// A directory that only grew holds every record where it was.
pub proof fn lemma_same_records_extend(
    d: Seq<SegmentView>,
    d2: Seq<SegmentView>,
    idx: Map<Seq<char>, CommandPos>,
    watermark: u64,
)
    requires
        extends(d, d2),
        entries_ok(d, idx, watermark),
    ensures
        same_records(d, idx, d2, idx),
{
    assert forall|key: Seq<char>| idx.contains_key(key) implies record_at(d2, idx[key])
        == record_at(d, idx[key]) by {
        let pos = idx[key];
        assert(entry_ok(d, watermark, key, pos));
        assert(has_segment(d, pos.file_id));
        let data = lookup(d, pos.file_id).unwrap();
        let data2 = lookup(d2, pos.file_id).unwrap();
        assert(data =~= data2.subrange(0, data.len() as int));
        assert(slice_at(data, pos) =~= slice_at(data2, pos));
    }
}

/// A record that was copied to the end of the active segment is the same
/// record, and every other record stays where it was.
pub proof fn lemma_same_records_relocate(
    d: Seq<SegmentView>,
    idx: Map<Seq<char>, CommandPos>,
    watermark: u64,
    key: Seq<char>,
)
    requires
        store_wf(d, idx, watermark),
        idx.contains_key(key),
        d.last().data.len() + idx[key].length <= u64::MAX,
    ensures
        same_records(
            d,
            idx,
            appended(d, record_at(d, idx[key])),
            idx.insert(key, tail_pos(d, record_at(d, idx[key]))),
        ),
{
    let r = record_at(d, idx[key]);
    let d2 = appended(d, r);
    let pos2 = tail_pos(d, r);
    let idx2 = idx.insert(key, pos2);
    assert(entry_ok(d, watermark, key, idx[key]));
    lemma_appended(d, r);
    lemma_same_records_extend(d, d2, idx, watermark);
    assert(slice_at(d.last().data + r, pos2) =~= r);
    assert forall|k: Seq<char>|
        #![trigger idx.contains_key(k)]
        #![trigger idx2.contains_key(k)]
        (idx.contains_key(k) <==> idx2.contains_key(k)) && (idx.contains_key(k) ==> {
            &&& idx2[k].length == idx[k].length
            &&& record_at(d2, idx2[k]) == record_at(d, idx[k])
        }) by {
        if k != key && idx.contains_key(k) {
            assert(record_at(d2, idx[k]) == record_at(d, idx[k]));
        }
    }
}

/// Segments that no entry points into can go: every record stays where it
/// was.
pub proof fn lemma_same_records_retire(
    d: Seq<SegmentView>,
    idx: Map<Seq<char>, CommandPos>,
    watermark: u64,
    j: int,
)
    requires
        ascending(d),
        0 <= j < d.len(),
        entries_ok(d, idx, watermark),
        forall|key: Seq<char>| #[trigger] idx.contains_key(key) ==> idx[key].file_id >= d[j].id,
    ensures
        same_records(d, idx, d.skip(j), idx),
{
    let d2 = d.skip(j);
    assert forall|a: int, b: int| 0 <= a < b < d2.len() implies d2[a].id < d2[b].id by {
        assert(d[a + j].id < d[b + j].id);
    }
    assert forall|key: Seq<char>| idx.contains_key(key) implies record_at(d2, idx[key])
        == record_at(d, idx[key]) by {
        let pos = idx[key];
        assert(entry_ok(d, watermark, key, pos));
        let i = index_of(d, pos.file_id);
        lemma_lookup_at(d, i);
        if i < j {
            assert(d[i].id < d[j].id);
        }
        assert(d2[i - j] == d[i]);
        lemma_lookup_at(d2, i - j);
    }
}

/// The byte at `off` is one of those that `pos` points at.
pub open spec fn covers(pos: CommandPos, off: int) -> bool {
    pos.offset <= off < pos.offset + pos.length
}

/// Some entry of the index points at the byte at `off` of the segment
/// `id`.
pub open spec fn covered(idx: Map<Seq<char>, CommandPos>, id: u64, off: int) -> bool {
    exists|key: Seq<char>| #[trigger]
        idx.contains_key(key) && idx[key].file_id == id && covers(idx[key], off)
}

/// The two ranges share no byte.
pub open spec fn disjoint(a: CommandPos, b: CommandPos) -> bool {
    a.offset + a.length <= b.offset || b.offset + b.length <= a.offset
}

/// The entries that point into the segment `id` tile its first `len`
/// bytes: no two of them share a byte, none reaches beyond `len`, and
/// every byte before `len` belongs to one of them. So the segment holds the
/// record of each such entry once, and nothing else.
pub open spec fn tiles(idx: Map<Seq<char>, CommandPos>, id: u64, len: int) -> bool {
    &&& forall|k1: Seq<char>, k2: Seq<char>|
        #![trigger idx.contains_key(k1), idx.contains_key(k2)]
        idx.contains_key(k1) && idx.contains_key(k2) && k1 != k2 && idx[k1].file_id == id
            && idx[k2].file_id == id ==> disjoint(idx[k1], idx[k2])
    &&& forall|key: Seq<char>| #[trigger]
        idx.contains_key(key) && idx[key].file_id == id ==> idx[key].offset + idx[key].length
            <= len
    &&& forall|off: int| 0 <= off < len ==> #[trigger] covered(idx, id, off)
}

/// No entry points into an empty segment, and so the entries tile it.
pub proof fn lemma_tiles_empty(
    d: Seq<SegmentView>,
    idx: Map<Seq<char>, CommandPos>,
    watermark: u64,
    id: u64,
)
    requires
        entries_ok(d, idx, watermark),
        lookup(d, id) == Some(Seq::<u8>::empty()),
    ensures
        forall|key: Seq<char>| #[trigger] idx.contains_key(key) ==> idx[key].file_id != id,
        tiles(idx, id, 0),
{
    assert forall|key: Seq<char>| #[trigger] idx.contains_key(key) implies idx[key].file_id
        != id by {
        assert(entry_ok(d, watermark, key, idx[key]));
    }
}

/// A record behind the tiled bytes, under a key that did not point into
/// the segment, extends the tiling by its length.
pub proof fn lemma_tiles_append(
    idx: Map<Seq<char>, CommandPos>,
    id: u64,
    len: int,
    key: Seq<char>,
    n: int,
)
    requires
        tiles(idx, id, len),
        0 < n,
        0 <= len,
        len + n <= u64::MAX,
        idx.contains_key(key) ==> idx[key].file_id != id,
    ensures
        tiles(
            idx.insert(key, CommandPos { offset: len as u64, length: n as u64, file_id: id }),
            id,
            len + n,
        ),
{
    let pos = CommandPos { offset: len as u64, length: n as u64, file_id: id };
    let idx2 = idx.insert(key, pos);
    assert forall|k1: Seq<char>, k2: Seq<char>|
        #![trigger idx2.contains_key(k1), idx2.contains_key(k2)]
        idx2.contains_key(k1) && idx2.contains_key(k2) && k1 != k2 && idx2[k1].file_id == id
            && idx2[k2].file_id == id implies disjoint(idx2[k1], idx2[k2]) by {
        if k1 == key {
            assert(idx.contains_key(k2));
        } else if k2 == key {
            assert(idx.contains_key(k1));
        } else {
            assert(idx.contains_key(k1) && idx.contains_key(k2));
        }
    }
    assert forall|k: Seq<char>| #[trigger] idx2.contains_key(k) && idx2[k].file_id == id implies idx2[k].offset
        + idx2[k].length <= len + n by {
        if k != key {
            assert(idx.contains_key(k));
        }
    }
    assert forall|off: int| 0 <= off < len + n implies #[trigger] covered(idx2, id, off) by {
        if off < len {
            assert(covered(idx, id, off));
            let k = choose|k: Seq<char>| #[trigger]
                idx.contains_key(k) && idx[k].file_id == id && covers(idx[k], off);
            assert(idx2.contains_key(k) && idx2[k].file_id == id && covers(idx2[k], off));
        } else {
            assert(idx2.contains_key(key) && idx2[key].file_id == id && covers(idx2[key], off));
        }
    }
}

/// What a store holds after a run of commands.
pub open spec fn apply_all(m: Map<Seq<char>, Seq<char>>, commands: Seq<CommandView>) -> Map<
    Seq<char>,
    Seq<char>,
>
    decreases commands.len(),
{
    if commands.len() == 0 {
        m
    } else {
        apply(apply_all(m, commands.drop_last()), commands.last())
    }
}

/// A key that was set is held with its value.
pub proof fn lemma_set_get(m: Map<Seq<char>, Seq<char>>, key: Seq<char>, value: Seq<char>)
    ensures
        held(apply(m, CommandView::SET(key, value)), key) == Some(value),
{
}

/// Of two values set under one key, the second is held.
pub proof fn lemma_set_set_get(
    m: Map<Seq<char>, Seq<char>>,
    key: Seq<char>,
    first: Seq<char>,
    second: Seq<char>,
)
    ensures
        held(
            apply(apply(m, CommandView::SET(key, first)), CommandView::SET(key, second)),
            key,
        ) == Some(second),
{
}

/// A key that was set and then removed is not held.
pub proof fn lemma_set_remove_get(m: Map<Seq<char>, Seq<char>>, key: Seq<char>, value: Seq<char>)
    ensures
        held(apply(apply(m, CommandView::SET(key, value)), CommandView::RM(key)), key) is None,
{
}

/// A key that was removed is not held until it is set again: no run of
/// commands without a `SET` of that key brings it back.
pub proof fn lemma_removed_stays_removed(
    m: Map<Seq<char>, Seq<char>>,
    key: Seq<char>,
    commands: Seq<CommandView>,
)
    requires
        forall|i: int|
            0 <= i < commands.len() ==> !(#[trigger] commands[i] matches CommandView::SET(k, _)
                && k == key),
    ensures
        held(apply_all(apply(m, CommandView::RM(key)), commands), key) is None,
    decreases commands.len(),
{
    if commands.len() > 0 {
        let rest = commands.drop_last();
        assert forall|i: int| 0 <= i < rest.len() implies !(#[trigger] rest[i] matches CommandView::SET(
            k,
            _,
        ) && k == key) by {
            assert(rest[i] == commands[i]);
        }
        lemma_removed_stays_removed(m, key, rest);
        assert(commands.last() == commands[commands.len() - 1]);
    }
}

/// Removing a key that is not held changes nothing.
pub proof fn lemma_remove_absent(m: Map<Seq<char>, Seq<char>>, key: Seq<char>)
    requires
        held(m, key) is None,
    ensures
        apply(m, CommandView::RM(key)) == m,
{
    assert(m.remove(key) =~= m);
}

} // verus!
