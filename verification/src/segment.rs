//! The directory of segments: numbered byte logs, kept in ascending order
//! of their ids. The last segment is the active one.

use vstd::prelude::*;
use crate::error::KVStoreError;
use crate::log::SegmentView;
use crate::names::{
    lemma_parse_name, lemma_valid_ids_first, parse_name, parse_segment_name, segment_name,
    valid_ids,
};

verus! {

/// One segment: its id and the bytes of its file.
pub struct Segment {
    pub id: u64,
    pub data: Vec<u8>,
}

impl View for Segment {
    type V = SegmentView;

    open spec fn view(&self) -> SegmentView {
        SegmentView { id: self.id, data: self.data@ }
    }
}

/// The ids grow from each segment to the next.
pub open spec fn ascending(d: Seq<SegmentView>) -> bool {
    forall|i: int, j: int| 0 <= i < j < d.len() ==> d[i].id < d[j].id
}

/// Whether `d` holds a segment with this id.
pub open spec fn has_segment(d: Seq<SegmentView>, id: u64) -> bool {
    exists|i: int| 0 <= i < d.len() && #[trigger] d[i].id == id
}

/// Where in `d` the segment `id` stands.
pub open spec fn index_of(d: Seq<SegmentView>, id: u64) -> int {
    choose|i: int| 0 <= i < d.len() && #[trigger] d[i].id == id
}

/// The bytes of the segment `id`, if `d` holds it.
pub open spec fn lookup(d: Seq<SegmentView>, id: u64) -> Option<Seq<u8>> {
    if has_segment(d, id) {
        Some(d[index_of(d, id)].data)
    } else {
        None
    }
}

/// How many segments of `d` have an id below `id`.
pub open spec fn rank(d: Seq<SegmentView>, id: u64) -> int
    decreases d.len(),
{
    if d.len() == 0 {
        0
    } else if d.last().id < id {
        d.len() as int
    } else {
        rank(d.drop_last(), id)
    }
}

/// In an ascending directory a segment is found where it stands.
pub proof fn lemma_lookup_at(d: Seq<SegmentView>, i: int)
    requires
        ascending(d),
        0 <= i < d.len(),
    ensures
        has_segment(d, d[i].id),
        index_of(d, d[i].id) == i,
        lookup(d, d[i].id) == Some(d[i].data),
{
    let j = index_of(d, d[i].id);
    if j < i {
        assert(d[j].id < d[i].id);
    } else if i < j {
        assert(d[i].id < d[j].id);
    }
}

/// Where a new segment goes: behind all smaller ids, before all others.
pub proof fn lemma_rank(d: Seq<SegmentView>, id: u64)
    requires
        ascending(d),
    ensures
        0 <= rank(d, id) <= d.len(),
        forall|i: int| 0 <= i < rank(d, id) ==> #[trigger] d[i].id < id,
        forall|i: int| rank(d, id) <= i < d.len() ==> #[trigger] d[i].id >= id,
    decreases d.len(),
{
    if d.len() > 0 && !(d.last().id < id) {
        let p = d.drop_last();
        lemma_rank(p, id);
        assert forall|i: int| rank(d, id) <= i < d.len() implies #[trigger] d[i].id >= id by {
            if i < p.len() {
                assert(p[i].id >= id);
            }
        }
        assert forall|i: int| 0 <= i < rank(d, id) implies #[trigger] d[i].id < id by {
            assert(p[i].id < id);
        }
    }
}

/// The directory that a listing of files describes: the files whose names
/// are segment names, in ascending order of their ids. `None` where two
/// files claim the same id.
pub open spec fn listing(files: Seq<(Seq<char>, Seq<u8>)>) -> Option<Seq<SegmentView>>
    decreases files.len(),
{
    if files.len() == 0 {
        Some(Seq::empty())
    } else {
        match listing(files.drop_first()) {
            None => None,
            Some(d) => match parse_name(files.first().0) {
                None => Some(d),
                Some(id) => if has_segment(d, id) {
                    None
                } else {
                    Some(d.insert(rank(d, id), SegmentView { id, data: files.first().1 }))
                },
            },
        }
    }
}

/// The files that hold the segments of a directory, each under its
/// segment name.
pub open spec fn files_of(d: Seq<SegmentView>) -> Seq<(Seq<char>, Seq<u8>)> {
    Seq::new(d.len(), |i: int| (segment_name(d[i].id), d[i].data))
}

/// The files of a directory describe that directory.
pub proof fn lemma_listing_of_files(d: Seq<SegmentView>)
    requires
        ascending(d),
    ensures
        listing(files_of(d)) == Some(d),
    decreases d.len(),
{
    if d.len() > 0 {
        let rest = d.drop_first();
        assert forall|i: int, j: int| 0 <= i < j < rest.len() implies rest[i].id < rest[j].id by {
            assert(d[i + 1].id < d[j + 1].id);
        }
        lemma_listing_of_files(rest);
        assert(files_of(d).drop_first() =~= files_of(rest));
        let id = d[0].id;
        lemma_parse_name(segment_name(id), id);
        assert(!has_segment(rest, id)) by {
            if has_segment(rest, id) {
                let i = index_of(rest, id);
                assert(d[0].id < d[i + 1].id);
            }
        }
        lemma_rank(rest, id);
        assert(rank(rest, id) == 0) by {
            if rank(rest, id) > 0 {
                assert(rest[0].id < id);
                assert(d[0].id < d[1].id);
            }
        }
        assert(rest.insert(0, d[0]) =~= d);
    } else {
        assert(files_of(d) =~= Seq::empty());
    }
}

/// The ids of the segments of a directory.
pub open spec fn ids_of(d: Seq<SegmentView>) -> Seq<u64> {
    Seq::new(d.len(), |i: int| d[i].id)
}

/// The names of the files of a listing.
pub open spec fn names_of(files: Seq<(Seq<char>, Seq<u8>)>) -> Seq<Seq<char>> {
    Seq::new(files.len(), |i: int| files[i].0)
}

/// The segments of the directory that a listing describes are in ascending
/// order, and their ids are the ids of the names that are segment names,
/// each once.
pub proof fn lemma_listing_ids(files: Seq<(Seq<char>, Seq<u8>)>)
    requires
        listing(files) is Some,
    ensures
        ascending(listing(files).unwrap()),
        ids_of(listing(files).unwrap()).to_multiset() == valid_ids(names_of(files)).to_multiset(),
    decreases files.len(),
{
    let d = listing(files).unwrap();
    if files.len() == 0 {
        assert(ids_of(d) =~= Seq::<u64>::empty());
        assert(names_of(files) =~= Seq::<Seq<char>>::empty());
    } else {
        let files_rest = files.drop_first();
        let rest = listing(files_rest).unwrap();
        lemma_listing_ids(files_rest);
        assert(names_of(files).drop_first() =~= names_of(files_rest));
        lemma_valid_ids_first(names_of(files));
        match parse_name(files.first().0) {
            None => {},
            Some(id) => {
                let p = rank(rest, id);
                lemma_rank(rest, id);
                let seg = SegmentView { id, data: files.first().1 };
                assert(ids_of(rest.insert(p, seg)) =~= ids_of(rest).insert(p, id));
                vstd::seq_lib::to_multiset_insert(ids_of(rest), p, id);
                assert forall|i: int, j: int| 0 <= i < j < d.len() implies d[i].id < d[j].id by {
                    if j < p {
                        assert(rest[i].id < rest[j].id);
                    } else if j == p {
                        assert(rest[i].id < id);
                    } else if i < p {
                        assert(rest[i].id < id);
                        assert(rest[j - 1].id >= id);
                        assert(!has_segment(rest, id));
                    } else if i == p {
                        assert(rest[j - 1].id >= id);
                        assert(!has_segment(rest, id));
                    } else {
                        assert(rest[i - 1].id < rest[j - 1].id);
                    }
                }
            },
        }
    }
}

/// A listing as a mathematical value.
pub open spec fn files_view(files: Seq<(String, Vec<u8>)>) -> Seq<(Seq<char>, Seq<u8>)> {
    Seq::new(files.len(), |i: int| (files[i].0@, files[i].1@))
}

/// The segments of one store.
pub struct Directory {
    segments: Vec<Segment>,
}

impl View for Directory {
    type V = Seq<SegmentView>;

    closed spec fn view(&self) -> Seq<SegmentView> {
        Seq::new(self.segments@.len(), |i: int| self.segments@[i]@)
    }
}

impl Directory {
    /// The ids are in ascending order.
    pub open spec fn wf(&self) -> bool {
        ascending(self@)
    }

    /// A directory without segments.
    pub fn new() -> (d: Directory)
        ensures
            d@ == Seq::<SegmentView>::empty(),
            d.wf(),
    {
        let d = Directory { segments: Vec::new() };
        assert(d@ =~= Seq::<SegmentView>::empty());
        d
    }

    /// The number of segments.
    pub fn len(&self) -> (n: usize)
        ensures
            n == self@.len(),
    {
        self.segments.len()
    }

    /// The id of the segment at `i`.
    pub fn id_at(&self, i: usize) -> (id: u64)
        requires
            i < self@.len(),
        ensures
            id == self@[i as int].id,
    {
        self.segments[i].id
    }

    /// The bytes of the segment at `i`.
    pub fn data_at(&self, i: usize) -> (data: &Vec<u8>)
        requires
            i < self@.len(),
        ensures
            data@ == self@[i as int].data,
    {
        &self.segments[i].data
    }

    /// The ids of all segments, in ascending order.
    pub fn ids(&self) -> (ids: Vec<u64>)
        ensures
            ids@.len() == self@.len(),
            forall|i: int| 0 <= i < ids@.len() ==> ids@[i] == self@[i].id,
    {
        let mut ids: Vec<u64> = Vec::new();
        let mut i: usize = 0;
        while i < self.segments.len()
            invariant
                i <= self.segments@.len(),
                ids@.len() == i,
                forall|k: int| 0 <= k < i ==> ids@[k] == self@[k].id,
            decreases self.segments@.len() - i,
        {
            ids.push(self.segments[i].id);
            i = i + 1;
        }
        ids
    }

    /// Where the segment `id` stands, if the directory holds it.
    pub fn position(&self, id: u64) -> (r: Option<usize>)
        ensures
            match r {
                Some(i) => i < self@.len() && self@[i as int].id == id,
                None => !has_segment(self@, id),
            },
    {
        let mut i: usize = 0;
        while i < self.segments.len()
            invariant
                i <= self.segments@.len(),
                forall|k: int| 0 <= k < i ==> self@[k].id != id,
            decreases self.segments@.len() - i,
        {
            if self.segments[i].id == id {
                return Some(i);
            }
            i = i + 1;
        }
        None
    }

    /// Adds an empty segment with an id above all others.
    pub fn create(&mut self, id: u64)
        requires
            old(self).wf(),
            old(self)@.len() > 0 ==> old(self)@.last().id < id,
        ensures
            final(self)@ == old(self)@.push(SegmentView { id, data: Seq::empty() }),
            final(self).wf(),
    {
        self.segments.push(Segment { id, data: Vec::new() });
        assert(self@ =~= old(self)@.push(SegmentView { id, data: Seq::empty() }));
        assert forall|i: int, j: int| 0 <= i < j < self@.len() implies self@[i].id
            < self@[j].id by {
            if j == self@.len() - 1 {
                assert(old(self)@[i].id <= old(self)@.last().id);
            } else {
                assert(old(self)@[i].id < old(self)@[j].id);
            }
        }
    }

    /// Appends bytes to the last segment.
    pub fn append(&mut self, bytes: &[u8])
        requires
            old(self)@.len() > 0,
        ensures
            final(self)@ == old(self)@.update(
                old(self)@.len() - 1,
                SegmentView { id: old(self)@.last().id, data: old(self)@.last().data + bytes@ },
            ),
    {
        let mut last = self.segments.pop().unwrap();
        assert(last@ == old(self)@.last());
        last.data.extend_from_slice(bytes);
        assert(last@.data == old(self)@.last().data + bytes@);
        assert(last@.id == old(self)@.last().id);
        self.segments.push(last);
        assert(self@[self@.len() - 1] == last@);
        assert(self.segments@.len() == old(self).segments@.len());
        assert forall|i: int| 0 <= i < self@.len() - 1 implies self@[i] == old(self)@[i] by {
            assert(self.segments@[i] == old(self).segments@[i]);
        }
        assert(self@ =~= old(self)@.update(
            old(self)@.len() - 1,
            SegmentView { id: old(self)@.last().id, data: old(self)@.last().data + bytes@ },
        ));
    }

    /// Cuts the last segment down to its first `n` bytes.
    pub fn truncate_last(&mut self, n: usize)
        requires
            old(self)@.len() > 0,
            n <= old(self)@.last().data.len(),
        ensures
            final(self)@ == old(self)@.update(
                old(self)@.len() - 1,
                SegmentView { id: old(self)@.last().id, data: old(self)@.last().data.take(n as int) },
            ),
    {
        let mut last = self.segments.pop().unwrap();
        assert(last@ == old(self)@.last());
        last.data.truncate(n);
        self.segments.push(last);
        assert(self.segments@.len() == old(self).segments@.len());
        assert forall|i: int| 0 <= i < self@.len() - 1 implies self@[i] == old(self)@[i] by {
            assert(self.segments@[i] == old(self).segments@[i]);
        }
        assert(self@ =~= old(self)@.update(
            old(self)@.len() - 1,
            SegmentView { id: old(self)@.last().id, data: old(self)@.last().data.take(n as int) },
        ));
    }

    /// Deletes every segment with an id below `id`, and says how many
    /// there were.
    pub fn delete_below(&mut self, id: u64) -> (removed: usize)
        requires
            old(self).wf(),
        ensures
            removed == rank(old(self)@, id),
            final(self)@ == old(self)@.skip(removed as int),
            final(self).wf(),
    {
        let mut removed: usize = 0;
        let total = self.segments.len();
        while self.segments.len() > 0 && self.segments[0].id < id
            invariant
                removed + self@.len() == total,
                total == old(self)@.len(),
                self@ == old(self)@.skip(removed as int),
                forall|i: int| 0 <= i < removed ==> old(self)@[i].id < id,
                ascending(old(self)@),
            decreases self.segments@.len(),
        {
            let ghost before = self@;
            self.segments.remove(0);
            assert(self@ =~= before.skip(1));
            assert(before.skip(1) =~= old(self)@.skip(removed + 1));
            assert(before[0] == old(self)@[removed as int]);
            removed = removed + 1;
        }
        assert forall|i: int| removed <= i < old(self)@.len() implies old(self)@[i].id >= id by {
            assert(self@[0] == old(self)@[removed as int]);
            if i > removed {
                assert(old(self)@[removed as int].id < old(self)@[i].id);
            }
        }
        proof {
            let d = old(self)@;
            lemma_rank(d, id);
            let r = rank(d, id);
            if r < removed {
                assert(d[r].id >= id);
            } else if removed < r {
                assert(d[removed as int].id < id);
            }
            assert forall|i: int, j: int| 0 <= i < j < self@.len() implies self@[i].id
                < self@[j].id by {
                assert(d[i + removed].id < d[j + removed].id);
            }
        }
        removed
    }

    /// Takes one file of a listing in. A file whose name is no segment name
    /// is ignored (`Ok(false)`); one whose id the directory already holds is
    /// refused with `Io`.
    pub fn add(&mut self, name: &str, data: Vec<u8>) -> (r: Result<bool, KVStoreError>)
        requires
            old(self).wf(),
        ensures
            final(self).wf(),
            match parse_name(name@) {
                None => r == Ok::<bool, KVStoreError>(false) && final(self)@ == old(self)@,
                Some(id) => if has_segment(old(self)@, id) {
                    r == Err::<bool, KVStoreError>(KVStoreError::Io) && final(self)@ == old(self)@
                } else {
                    r == Ok::<bool, KVStoreError>(true) && final(self)@ == old(self)@.insert(
                        rank(old(self)@, id),
                        SegmentView { id, data: data@ },
                    )
                },
            },
    {
        let id = match parse_segment_name(name) {
            Some(id) => id,
            None => { return Ok(false); },
        };
        let mut p: usize = self.segments.len();
        proof {
            lemma_rank(self@, id);
            assert(self@.take(p as int) =~= self@);
        }
        while p > 0 && self.segments[p - 1].id >= id
            invariant
                p <= self.segments@.len(),
                self@ == old(self)@,
                ascending(self@),
                rank(self@.take(p as int), id) == rank(self@, id),
                parse_name(name@) == Some(id),
                forall|k: int| p <= k < self@.len() ==> self@[k].id > id,
            decreases p,
        {
            if self.segments[p - 1].id == id {
                assert(self@[p - 1].id == id);
                assert(has_segment(old(self)@, id));
                assert(parse_name(name@) == Some(id));
                return Err(KVStoreError::Io);
            }
            assert(self@.take(p as int).drop_last() =~= self@.take(p - 1));
            p = p - 1;
        }
        proof {
            let d = self@;
            assert(rank(d, id) == p) by {
                if p > 0 {
                    assert(d.take(p as int).last() == d[p - 1]);
                }
            }
            assert(!has_segment(d, id)) by {
                if has_segment(d, id) {
                    let k = index_of(d, id);
                    if k < p {
                        assert(p > 0);
                        if k < p - 1 {
                            assert(d[k].id < d[p - 1].id);
                        }
                    }
                }
            }
        }
        let ghost seg = SegmentView { id, data: data@ };
        self.segments.insert(p, Segment { id, data });
        assert(self@ =~= old(self)@.insert(p as int, seg));
        assert forall|i: int, j: int| 0 <= i < j < self@.len() implies self@[i].id
            < self@[j].id by {
            let d = old(self)@;
            if i < p && j > p {
                assert(d[i].id < d[j - 1].id || i == j - 1);
            }
            if i < p && j == p {
                assert(d[i].id <= d[p - 1].id);
            }
            if i == p && j > p {
                assert(d[p as int].id <= d[j - 1].id);
            }
            if i > p {
                assert(d[i - 1].id < d[j - 1].id);
            }
            if j < p {
                assert(d[i].id < d[j].id);
            }
        }
        Ok(true)
    }

    /// Builds the directory that a listing describes.
    pub fn from_files(files: Vec<(String, Vec<u8>)>) -> (r: Result<Directory, KVStoreError>)
        ensures
            match listing(files_view(files@)) {
                Some(d) => r matches Ok(dir) && dir@ == d && dir.wf(),
                None => r matches Err(e) && e == KVStoreError::Io,
            },
    {
        let mut dir = Directory::new();
        let ghost all = files_view(files@);
        let mut pending = files;
        assert(all.skip(all.len() as int) =~= Seq::empty());
        while pending.len() > 0
            invariant
                all == files_view(files@),
                pending@.len() <= all.len(),
                forall|i: int|
                    0 <= i < pending@.len() ==> all[i] == (pending@[i].0@, pending@[i].1@),
                dir.wf(),
                listing(all.skip(pending@.len() as int)) == Some(dir@),
            decreases pending@.len(),
        {
            let ghost k = pending@.len() - 1;
            let (name, data) = pending.pop().unwrap();
            proof {
                assert(all.skip(k).drop_first() =~= all.skip(k + 1));
                assert(all.skip(k).first() == (name@, data@));
            }
            let ghost before = dir@;
            match dir.add(name.as_str(), data) {
                Ok(_) => {},
                Err(e) => {
                    proof {
                        assert(listing(all.skip(k).drop_first()) == Some(before));
                        assert(listing(all.skip(k)) is None);
                        lemma_listing_fails(all, k);
                    }
                    return Err(e);
                },
            }
        }
        assert(all.skip(0) =~= all);
        Ok(dir)
    }
}

/// A listing that fails on its last files fails as a whole.
pub proof fn lemma_listing_fails(files: Seq<(Seq<char>, Seq<u8>)>, n: int)
    requires
        0 <= n <= files.len(),
        listing(files.skip(n)) is None,
    ensures
        listing(files) is None,
    decreases n,
{
    if n > 0 {
        assert(files.skip(n - 1).drop_first() =~= files.skip(n));
        lemma_listing_fails(files, n - 1);
    } else {
        assert(files.skip(0) =~= files);
    }
}

/// What the file of a segment needs to hold what the segment holds.
#[derive(Debug, Clone, Copy, PartialEq, Eq, Structural)]
pub enum FileOp {
    /// The file is as it should be.
    Nothing,
    /// There is no file yet: it is to be created with all of the segment.
    Create,
    /// The file is short: the segment's bytes from `from` on are to be
    /// appended.
    Append { from: u64 },
    /// The file is long: it is to be cut down to `len` bytes.
    Truncate { len: u64 },
    /// There is no such segment: the file is to be deleted.
    Delete,
}

/// What the file of a segment needs, from the segment's bytes (`None`: no
/// such segment) and the length of the file (`None`: no such file).
pub open spec fn file_op(data: Option<Seq<u8>>, on_disk: Option<u64>) -> FileOp {
    match (data, on_disk) {
        (None, None) => FileOp::Nothing,
        (None, Some(_)) => FileOp::Delete,
        (Some(_), None) => FileOp::Create,
        (Some(bytes), Some(n)) => if n == bytes.len() {
            FileOp::Nothing
        } else if n < bytes.len() {
            FileOp::Append { from: n }
        } else {
            FileOp::Truncate { len: bytes.len() as u64 }
        },
    }
}

/// What a file holds after `op` was carried out with the bytes `data` of
/// its segment. `None` stands for no file.
pub open spec fn carried_out(file: Option<Seq<u8>>, op: FileOp, data: Seq<u8>) -> Option<Seq<u8>> {
    match op {
        FileOp::Nothing => file,
        FileOp::Create => Some(data),
        FileOp::Append { from } => match file {
            Some(bytes) => Some(bytes + data.skip(from as int)),
            None => None,
        },
        FileOp::Truncate { len } => match file {
            Some(bytes) => Some(bytes.take(len as int)),
            None => None,
        },
        FileOp::Delete => None,
    }
}

/// A file that agrees with its segment as far as both go holds exactly the
/// segment once what it needs was carried out; and the file of no segment
/// is gone.
pub proof fn lemma_file_op_brings_up(data: Option<Seq<u8>>, file: Option<Seq<u8>>)
    requires
        file matches Some(bytes) ==> bytes.len() <= u64::MAX,
        data matches Some(d) ==> d.len() <= u64::MAX,
        data is Some && file is Some ==> data.unwrap().is_prefix_of(file.unwrap())
            || file.unwrap().is_prefix_of(data.unwrap()),
    ensures
        ({
            let on_disk = match file {
                Some(bytes) => Some(bytes.len() as u64),
                None => None,
            };
            let op = file_op(data, on_disk);
            carried_out(
                file,
                op,
                match data {
                    Some(d) => d,
                    None => Seq::empty(),
                },
            ) == data
        }),
{
    match (data, file) {
        (Some(d), Some(bytes)) => {
            if bytes.len() < d.len() {
                assert(bytes =~= d.subrange(0, bytes.len() as int));
                assert(bytes + d.skip(bytes.len() as int) =~= d);
            } else if bytes.len() > d.len() {
                assert(d =~= bytes.subrange(0, d.len() as int));
                assert(bytes.take(d.len() as int) =~= d);
            } else {
                if d.is_prefix_of(bytes) {
                    assert(d =~= bytes.subrange(0, d.len() as int));
                } else {
                    assert(bytes =~= d.subrange(0, bytes.len() as int));
                }
                assert(bytes =~= d);
            }
        },
        _ => {},
    }
}

impl Directory {
    /// What the file of the segment `id` needs, where that file has
    /// `on_disk` bytes (`None`: there is no such file).
    pub fn file_op(&self, id: u64, on_disk: Option<u64>) -> (op: FileOp)
        requires
            self.wf(),
        ensures
            op == file_op(lookup(self@, id), on_disk),
    {
        match self.position(id) {
            None => match on_disk {
                Some(_) => FileOp::Delete,
                None => FileOp::Nothing,
            },
            Some(at) => {
                proof {
                    lemma_lookup_at(self@, at as int);
                }
                let len = self.data_at(at).len() as u64;
                match on_disk {
                    None => FileOp::Create,
                    Some(n) => if n == len {
                        FileOp::Nothing
                    } else if n < len {
                        FileOp::Append { from: n }
                    } else {
                        FileOp::Truncate { len }
                    },
                }
            },
        }
    }
}

} // verus!
