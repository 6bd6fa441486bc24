//! The hash set that stores a region set's members, and the contracts that
//! are taken on trust about it.

use hashbrown::HashSet;
use vstd::prelude::*;

verus! {

/// One stored rectangle: top, left, bottom, right.
pub type Entry = (i64, i64, i64, i64);

/// A `hashbrown::HashSet` of entries. Its inside is hidden from the verifier;
/// what it holds is spoken of through `entries`.
#[verifier::external_body]
pub struct EntrySet {
    set: HashSet<Entry>,
}

/// The entries that the hash set holds.
pub uninterp spec fn entries(table: EntrySet) -> Set<Entry>;

/// `HashSet::new`: assumed to return a set that holds nothing.
#[verifier::external_body]
pub(crate) fn empty_set() -> (table: EntrySet)
    ensures
        entries(table) == Set::<Entry>::empty(),
{
    EntrySet { set: HashSet::new() }
}

/// `HashSet::from_iter`: assumed to return a set that holds exactly the
/// entries that occur in `items`, each once however often it occurs there.
#[verifier::external_body]
pub(crate) fn collect_set(items: Vec<Entry>) -> (table: EntrySet)
    ensures
        entries(table) == items@.to_set(),
{
    EntrySet { set: HashSet::from_iter(items) }
}

/// `HashSet::iter`: assumed to visit every entry of the set exactly once. The
/// order of the visit is not specified, and nothing is claimed about it.
#[verifier::external_body]
pub(crate) fn walk_set(table: &EntrySet) -> (items: Vec<Entry>)
    ensures
        items@.no_duplicates(),
        items@.to_set() == entries(*table),
{
    table.set.iter().copied().collect()
}

} // verus!
