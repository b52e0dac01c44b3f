//! The index: for each live key, where its latest `SET` record stands.
//!
//! The map itself is a `dashmap::DashMap`. What it holds is named here, and
//! each call into it is given a contract over that name.

use vstd::prelude::*;
use dashmap::DashMap;

verus! {

/// Where a record stands: in which segment, from which byte, how long.
#[derive(Debug, Clone, Copy, PartialEq, Eq, Structural)]
pub struct CommandPos {
    pub offset: u64,
    pub length: u64,
    pub file_id: u64,
}

/// `dashmap::DashMap`: a hash map that threads can share. Nothing is known
/// of a value of it but through `index_entries`.
#[verifier::external_type_specification]
#[verifier::external_body]
#[verifier::reject_recursive_types(K)]
#[verifier::reject_recursive_types(V)]
#[verifier::reject_recursive_types(S)]
pub struct ExDashMap<K, V, S>(DashMap<K, V, S>);

/// The entries that an index holds.
pub uninterp spec fn index_entries(m: DashMap<String, CommandPos>) -> Map<Seq<char>, CommandPos>;

/// `DashMap::new`: a map without entries.
#[verifier::external_body]
pub(crate) fn index_new() -> (fresh: DashMap<String, CommandPos>)
    ensures
        index_entries(fresh) == (Map::<Seq<char>, CommandPos>::empty()),
{
    DashMap::new()
}

/// `DashMap::insert`: the map holds `pos` under `key` afterwards, and every
/// other entry as before; the entry that `key` had before is returned.
#[verifier::external_body]
pub(crate) fn index_insert(m: &mut DashMap<String, CommandPos>, key: String, pos: CommandPos) -> (prev:
    Option<CommandPos>)
    ensures
        index_entries(*final(m)) == index_entries(*old(m)).insert(key@, pos),
        prev == if index_entries(*old(m)).contains_key(key@) {
            Some(index_entries(*old(m))[key@])
        } else {
            None
        },
{
    m.insert(key, pos)
}

/// `DashMap::remove`: the map holds nothing under `key` afterwards, and
/// every other entry as before; the entry that `key` had is returned.
#[verifier::external_body]
pub(crate) fn index_remove(m: &mut DashMap<String, CommandPos>, key: &String) -> (prev: Option<
    CommandPos,
>)
    ensures
        index_entries(*final(m)) == index_entries(*old(m)).remove(key@),
        prev == if index_entries(*old(m)).contains_key(key@) {
            Some(index_entries(*old(m))[key@])
        } else {
            None
        },
{
    m.remove(key).map(|entry| entry.1)
}

/// `DashMap::get`: the entry under `key`, if there is one.
#[verifier::external_body]
pub(crate) fn index_get(m: &DashMap<String, CommandPos>, key: &String) -> (found: Option<CommandPos>)
    ensures
        found == if index_entries(*m).contains_key(key@) {
            Some(index_entries(*m)[key@])
        } else {
            None
        },
{
    m.get(key).map(|entry| *entry.value())
}

/// `DashMap::iter`: every entry once, in no particular order.
#[verifier::external_body]
pub(crate) fn index_list(m: &DashMap<String, CommandPos>) -> (all: Vec<(String, CommandPos)>)
    ensures
        forall|i: int|
            0 <= i < all@.len() ==> index_entries(*m).contains_key(#[trigger] all@[i].0@)
                && index_entries(*m)[all@[i].0@] == all@[i].1,
        forall|i: int, j: int|
            0 <= i < j < all@.len() ==> #[trigger] all@[i].0@ != #[trigger] all@[j].0@,
        forall|key: Seq<char>| #[trigger]
            index_entries(*m).contains_key(key) ==> exists|i: int|
                0 <= i < all@.len() && #[trigger] all@[i].0@ == key,
{
    m.iter().map(|entry| (entry.key().clone(), *entry.value())).collect()
}

} // verus!
