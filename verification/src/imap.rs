//! Trusted declarations for the order-keeping map and set of the `indexmap`
//! crate, which the belief state and the firework piles are built on.
//! Contracts speak of the entries alone; the insertion order, which this
//! library never relies on, is left unstated.

use vstd::prelude::*;

use indexmap::IndexMap;
use indexmap::IndexSet;
use std::collections::hash_map::RandomState;

verus! {

#[verifier::external_type_specification]
#[verifier::external_body]
#[verifier::reject_recursive_types(K)]
#[verifier::reject_recursive_types(V)]
#[verifier::reject_recursive_types(S)]
pub struct ExIndexMap<K, V, S>(IndexMap<K, V, S>);

#[verifier::external_type_specification]
#[verifier::external_body]
#[verifier::reject_recursive_types(T)]
#[verifier::reject_recursive_types(S)]
pub struct ExIndexSet<T, S>(IndexSet<T, S>);

/// What a map from ids to words holds.
pub uninterp spec fn imap_entries(m: IndexMap<u64, u64, RandomState>) -> Map<u64, u64>;

/// What a set of ids holds.
pub uninterp spec fn iset_contents(s: IndexSet<u64, RandomState>) -> Set<u64>;

/// Relies on IndexMap::new: creates a map with no entries.
#[verifier::external_body]
pub fn imap_new() -> (r: IndexMap<u64, u64>)
    ensures
        imap_entries(r) =~= Map::empty(),
{
    IndexMap::new()
}

/// Relies on IndexMap::insert: sets the value of a key and returns the value
/// it replaces, if the key was already present.
#[verifier::external_body]
pub fn imap_insert(m: &mut IndexMap<u64, u64>, k: u64, v: u64) -> (r: Option<u64>)
    ensures
        imap_entries(*final(m)) == imap_entries(*old(m)).insert(k, v),
        r == (if imap_entries(*old(m)).dom().contains(k) {
            Option::Some(imap_entries(*old(m))[k])
        } else {
            Option::<u64>::None
        }),
{
    m.insert(k, v)
}

/// Relies on IndexMap::get: returns the value of a key, if present.
#[verifier::external_body]
pub fn imap_get(m: &IndexMap<u64, u64>, k: u64) -> (r: Option<u64>)
    ensures
        r == (if imap_entries(*m).dom().contains(k) {
            Option::Some(imap_entries(*m)[k])
        } else {
            Option::<u64>::None
        }),
{
    m.get(&k).copied()
}

/// Relies on IndexMap::swap_remove: removes a key and returns its value, if
/// the key was present.
#[verifier::external_body]
pub fn imap_swap_remove(m: &mut IndexMap<u64, u64>, k: u64) -> (r: Option<u64>)
    ensures
        imap_entries(*final(m)) == imap_entries(*old(m)).remove(k),
        r == (if imap_entries(*old(m)).dom().contains(k) {
            Option::Some(imap_entries(*old(m))[k])
        } else {
            Option::<u64>::None
        }),
{
    m.swap_remove(&k)
}

/// Relies on IndexMap::iter: yields each entry exactly once.
#[verifier::external_body]
pub fn imap_pairs(m: &IndexMap<u64, u64>) -> (r: Vec<(u64, u64)>)
    ensures
        forall|i: int|
            0 <= i < r@.len() ==> imap_entries(*m).contains_pair(
                (#[trigger] r@[i]).0,
                r@[i].1,
            ),
        forall|i: int, j: int| 0 <= i < j < r@.len() ==> r@[i].0 != r@[j].0,
        forall|k: u64|
            imap_entries(*m).dom().contains(k) ==> exists|i: int|
                0 <= i < r@.len() && (#[trigger] r@[i]).0 == k,
{
    m.iter().map(|(k, v)| (*k, *v)).collect()
}

/// Relies on IndexMap's Clone: the copy holds the same entries.
#[verifier::external_body]
pub fn imap_clone(m: &IndexMap<u64, u64>) -> (r: IndexMap<u64, u64>)
    ensures
        imap_entries(r) == imap_entries(*m),
{
    m.clone()
}

/// Relies on IndexSet::new: creates a set with no elements.
#[verifier::external_body]
pub fn iset_new() -> (r: IndexSet<u64>)
    ensures
        iset_contents(r) =~= Set::empty(),
{
    IndexSet::new()
}

/// Relies on IndexSet::insert: adds an element and reports whether it was new.
#[verifier::external_body]
pub fn iset_insert(s: &mut IndexSet<u64>, v: u64) -> (r: bool)
    ensures
        iset_contents(*final(s)) == iset_contents(*old(s)).insert(v),
        r == !iset_contents(*old(s)).contains(v),
{
    s.insert(v)
}

/// Relies on IndexSet::swap_remove: takes an element out and reports whether
/// it was there.
#[verifier::external_body]
pub fn iset_swap_remove(s: &mut IndexSet<u64>, v: u64) -> (r: bool)
    ensures
        iset_contents(*final(s)) == iset_contents(*old(s)).remove(v),
        r == iset_contents(*old(s)).contains(v),
{
    s.swap_remove(&v)
}

/// Relies on IndexSet::contains.
#[verifier::external_body]
pub fn iset_contains(s: &IndexSet<u64>, v: u64) -> (r: bool)
    ensures
        r == iset_contents(*s).contains(v),
{
    s.contains(&v)
}

/// Relies on IndexSet::iter: yields each element exactly once.
#[verifier::external_body]
pub fn iset_elems(s: &IndexSet<u64>) -> (r: Vec<u64>)
    ensures
        forall|i: int| 0 <= i < r@.len() ==> iset_contents(*s).contains(#[trigger] r@[i]),
        forall|i: int, j: int| 0 <= i < j < r@.len() ==> r@[i] != r@[j],
        forall|v: u64|
            iset_contents(*s).contains(v) ==> exists|i: int|
                0 <= i < r@.len() && #[trigger] r@[i] == v,
{
    s.iter().copied().collect()
}

/// Relies on IndexSet's Clone: the copy holds the same elements.
#[verifier::external_body]
pub fn iset_clone(s: &IndexSet<u64>) -> (r: IndexSet<u64>)
    ensures
        iset_contents(r) == iset_contents(*s),
{
    s.clone()
}

} // verus!
