//! What a log means: the map that its records build when they are replayed
//! in order.

use vstd::prelude::*;
use crate::command::{lemma_stable_record_parses, parse_record, stable_record, CommandView};

verus! {

/// One segment as a mathematical value: its id and its bytes.
pub struct SegmentView {
    pub id: u64,
    pub data: Seq<u8>,
}

/// The map after one more command.
pub open spec fn apply(m: Map<Seq<char>, Seq<char>>, c: CommandView) -> Map<Seq<char>, Seq<char>> {
    match c {
        CommandView::SET(key, value) => m.insert(key, value),
        CommandView::RM(key) => m.remove(key),
    }
}

/// The map after the records at the front of `b` were applied to `m` in
/// order. The scan ends at the first byte that does not begin a record.
pub open spec fn scan(b: Seq<u8>, m: Map<Seq<char>, Seq<char>>) -> Map<Seq<char>, Seq<char>>
    decreases b.len(),
{
    match parse_record(b) {
        Some((c, n)) => if 0 < n <= b.len() {
            scan(b.skip(n), apply(m, c))
        } else {
            m
        },
        None => m,
    }
}

/// How many bytes at the front of `b` are records.
pub open spec fn scanned_len(b: Seq<u8>) -> int
    decreases b.len(),
{
    match parse_record(b) {
        Some((c, n)) => if 0 < n <= b.len() {
            n + scanned_len(b.skip(n))
        } else {
            0
        },
        None => 0,
    }
}

/// `b` is records from its first byte to its last, each of them stable.
pub open spec fn clean(b: Seq<u8>) -> bool
    decreases b.len(),
{
    b.len() == 0 || match parse_record(b) {
        Some((c, n)) => 0 < n <= b.len() && stable_record(b.take(n), c) && clean(b.skip(n)),
        None => false,
    }
}

/// The map that the segments of `d` build, replayed from the first segment
/// to the last.
pub open spec fn replay(d: Seq<SegmentView>) -> Map<Seq<char>, Seq<char>>
    decreases d.len(),
{
    if d.len() == 0 {
        Map::empty()
    } else {
        scan(d.last().data, replay(d.drop_last()))
    }
}

/// No record begins an empty input.
pub proof fn lemma_parse_empty()
    ensures
        parse_record(Seq::<u8>::empty()) is None,
{
}

/// One more record behind a clean log: the log stays clean, and its scan is
/// the old scan with the record's command applied.
pub proof fn lemma_scan_append(
    b: Seq<u8>,
    r: Seq<u8>,
    c: CommandView,
    m: Map<Seq<char>, Seq<char>>,
)
    requires
        clean(b),
        stable_record(r, c),
    ensures
        clean(b + r),
        scan(b + r, m) == apply(scan(b, m), c),
        scanned_len(b + r) == b.len() + r.len(),
    decreases b.len(),
{
    if b.len() == 0 {
        assert(b + r =~= r);
        lemma_stable_record_parses(r, c);
        assert(r.take(r.len() as int) =~= r);
        assert(r.skip(r.len() as int) =~= Seq::<u8>::empty());
        lemma_parse_empty();
        assert(clean(r.skip(r.len() as int)));
        assert(scan(r, m) == scan(r.skip(r.len() as int), apply(m, c)));
        assert(scanned_len(r) == r.len() + scanned_len(r.skip(r.len() as int)));
    } else {
        let (c0, n) = parse_record(b).unwrap();
        assert(b.take(n).is_prefix_of(b + r)) by {
            assert(b.take(n) =~= (b + r).subrange(0, n));
        }
        assert(parse_record(b + r) == Some((c0, n)));
        assert((b + r).skip(n) =~= b.skip(n) + r);
        assert((b + r).take(n) =~= b.take(n));
        lemma_scan_append(b.skip(n), r, c, apply(m, c0));
        assert(scanned_len(b + r) == n + scanned_len((b + r).skip(n)));
    }
}

/// A clean log is scanned to its end.
pub proof fn lemma_clean_scanned(b: Seq<u8>)
    requires
        clean(b),
    ensures
        scanned_len(b) == b.len(),
    decreases b.len(),
{
    if b.len() > 0 {
        let (c0, n) = parse_record(b).unwrap();
        lemma_clean_scanned(b.skip(n));
    }
}

} // verus!
