//! The marking table: deduplicates markings, assigning each a stable,
//! discovery-order identifier.  The table is a hash map from the canonical
//! entry list of a marking to its identifier, using ahash's hasher for
//! fast average O(1) lookup and insertion.

use crate::marking::Marking;
use std::collections::HashMap;
use vstd::prelude::*;

verus! {

#[verifier::external_type_specification]
#[verifier::external_body]
pub struct ExRandomState(ahash::RandomState);

/// The hash map type behind the table.
pub type TableMap = HashMap<Vec<(usize, usize)>, usize, ahash::RandomState>;

/// The contents of the table: which canonical entry lists are stored, and
/// under which identifier.
pub uninterp spec fn table_entries(m: TableMap) -> Map<Seq<(usize, usize)>, usize>;

/// A table association with nothing in it.
pub open spec fn empty_table() -> Map<Seq<(usize, usize)>, usize> {
    Map::empty()
}

/// Relies on std's `HashMap::with_hasher` and `ahash::RandomState::new`: a
/// freshly created hash map contains no entries.
#[verifier::external_body]
fn table_new() -> (created: TableMap)
    ensures
        table_entries(created) == empty_table(),
{
    HashMap::with_hasher(ahash::RandomState::new())
}

/// Relies on std's `HashMap::get` with `Vec` keys, whose equality and hash
/// are element-wise: returns the value stored under a key with the same
/// elements, if one is stored.
#[verifier::external_body]
fn table_get(m: &TableMap, key: &Vec<(usize, usize)>) -> (r: Option<usize>)
    ensures
        r == if table_entries(*m).contains_key(key@) {
            Some(table_entries(*m)[key@])
        } else {
            None::<usize>
        },
{
    m.get(key).copied()
}

/// Relies on std's `HashMap::insert`: afterwards the key is stored with
/// the given value, and every other key keeps its value.
#[verifier::external_body]
fn table_insert(m: &mut TableMap, key: Vec<(usize, usize)>, id: usize)
    ensures
        table_entries(*final(m)) == table_entries(*old(m)).insert(key@, id),
{
    m.insert(key, id);
}

/// Keeps track of the markings seen so far and the identifier each one was
/// assigned at discovery.
pub struct Markings {
    map: TableMap,
}

impl Markings {
    /// The stored association from canonical entry lists to identifiers.
    pub closed spec fn tbl(&self) -> Map<Seq<(usize, usize)>, usize> {
        table_entries(self.map)
    }

    /// An empty table.
    pub fn new() -> (m: Markings)
        ensures
            m.tbl() == empty_table(),
    {
        Markings { map: table_new() }
    }

    /// Record a marking not seen before under the identifier `id`.  The
    /// caller hands in the next discovery index; a marking must never be
    /// recorded twice.
    pub fn remember(&mut self, marking: &Marking, id: usize)
        requires
            !old(self).tbl().contains_key(marking.entries@),
        ensures
            final(self).tbl() == old(self).tbl().insert(marking.entries@, id),
    {
        let key = marking.clone();
        table_insert(&mut self.map, key.entries, id);
    }

    /// Get the identifier of a marking, if it has been seen before.
    pub fn look_up(&self, marking: &Marking) -> (r: Option<usize>)
        ensures
            r == if self.tbl().contains_key(marking.entries@) {
                Some(self.tbl()[marking.entries@])
            } else {
                None::<usize>
            },
    {
        table_get(&self.map, &marking.entries)
    }
}

} // verus!
