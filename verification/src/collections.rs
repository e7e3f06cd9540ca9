//! Declarations of the hash collections of `bevy_platform` that the library stores its state in,
//! with the contracts of the methods it calls on them.
//!
//! Each collection type is given a name for its contents (a set or a map of plain values), and
//! each method that the library calls is wrapped in a function whose contract says what the
//! method does to, and returns from, those contents. Keys hash consistently with their equality:
//! `u64` keys hash themselves, and `CellId` and `PartitionId` keys hash a `u64` that is a function
//! of the fields that their equality compares.

use vstd::prelude::*;
use bevy_platform::collections::{HashMap, HashSet};
use bevy_platform::hash::PassHash;
use bevy_ecs::entity::EntityHash;
use crate::hash::component::CellId;
use crate::hash::map::GridHashEntry;
use crate::partition::PartitionId;
use crate::partition::private::Partition;

verus! {

/// A set of entities, identified by the bits of the entity.
pub type EntitySet = HashSet<u64, EntityHash>;

/// A set of globally unique grid cells. Keys are prehashed.
pub type CellHashSet = HashSet<CellId, PassHash>;

/// The map from occupied cells to their spatial hash entries.
pub type CellEntryMap = HashMap<CellId, GridHashEntry, PassHash>;

/// The map from entities to the cell they were last seen in.
pub type EntityCellMap = HashMap<u64, CellId, PassHash>;

/// The map from partition identifiers to partitions.
pub type PartitionMap = HashMap<PartitionId, Partition, PassHash>;

/// The map from cells to the identifier of the partition that holds them.
pub type CellPartitionMap = HashMap<CellId, PartitionId, PassHash>;

/// The map from partitions to a set of their cells.
pub type PartitionCellsMap = HashMap<PartitionId, CellHashSet, PassHash>;

/// The map from entities to the identifier of their partition.
pub type EntityPartitionMap = HashMap<u64, PartitionId, EntityHash>;

/// The change of partition of an entity: the partition it left and the one it joined, if any.
pub type PartitionChange = (Option<PartitionId>, Option<PartitionId>);

/// The map from entities to their change of partition.
pub type EntityChangeMap = HashMap<u64, PartitionChange, EntityHash>;

#[verifier::external_type_specification]
#[verifier::external_body]
#[verifier::reject_recursive_types(K)]
#[verifier::reject_recursive_types(V)]
#[verifier::reject_recursive_types(S)]
pub struct ExHashMap<K, V, S>(HashMap<K, V, S>);

#[verifier::external_type_specification]
#[verifier::external_body]
#[verifier::reject_recursive_types(T)]
#[verifier::reject_recursive_types(S)]
pub struct ExHashSet<T, S>(HashSet<T, S>);

#[verifier::external_type_specification]
#[verifier::external_body]
pub struct ExPassHash(PassHash);

#[verifier::external_type_specification]
#[verifier::external_body]
pub struct ExEntityHash(EntityHash);

// ------------------------------------------------------------------------------------------------
// Sets of entities, identified by the bits of the entity.
// ------------------------------------------------------------------------------------------------

/// The entities held by a set of entities.
pub uninterp spec fn entity_set(s: EntitySet) -> Set<u64>;

/// `HashSet::default`: an empty set.
#[verifier::external_body]
pub(crate) fn entity_set_new() -> (r: EntitySet)
    ensures
        entity_set(r) == Set::<u64>::empty(),
{
    HashSet::default()
}

/// `HashSet::insert`: adds `e`, returning whether it was absent.
#[verifier::external_body]
pub(crate) fn entity_set_insert(s: &mut EntitySet, e: u64) -> (r: bool)
    ensures
        entity_set(*final(s)) == entity_set(*old(s)).insert(e),
        r == !entity_set(*old(s)).contains(e),
{
    s.insert(e)
}

/// `HashSet::remove`: removes `e`, returning whether it was present.
#[verifier::external_body]
pub(crate) fn entity_set_remove(s: &mut EntitySet, e: &u64) -> (r: bool)
    ensures
        entity_set(*final(s)) == entity_set(*old(s)).remove(*e),
        r == entity_set(*old(s)).contains(*e),
{
    s.remove(e)
}

/// `HashSet::contains`.
#[verifier::external_body]
pub(crate) fn entity_set_contains(s: &EntitySet, e: &u64) -> (r: bool)
    ensures
        r == entity_set(*s).contains(*e),
{
    s.contains(e)
}

/// `HashSet::is_empty`.
#[verifier::external_body]
pub(crate) fn entity_set_is_empty(s: &EntitySet) -> (r: bool)
    ensures
        r == (entity_set(*s) == Set::<u64>::empty()),
{
    s.is_empty()
}

/// `HashSet::len`: the number of entities.
#[verifier::external_body]
pub(crate) fn entity_set_len(s: &EntitySet) -> (r: usize)
    ensures
        r == entity_set(*s).len(),
{
    s.len()
}

/// `HashSet::iter`, collected: every entity once, in the set's iteration order.
#[verifier::external_body]
pub(crate) fn entity_set_to_vec(s: &EntitySet) -> (r: Vec<u64>)
    ensures
        r@.no_duplicates(),
        r@.to_set() == entity_set(*s),
{
    s.iter().copied().collect()
}

// ------------------------------------------------------------------------------------------------
// Sets of cells.
// ------------------------------------------------------------------------------------------------

/// The cells held by a set of cells.
pub uninterp spec fn cell_set(s: CellHashSet) -> Set<CellId>;

/// `HashSet::default`: an empty set.
#[verifier::external_body]
pub(crate) fn cell_set_new() -> (r: CellHashSet)
    ensures
        cell_set(r) == Set::<CellId>::empty(),
{
    HashSet::default()
}

/// `HashSet::insert`: adds `c`, returning whether it was absent.
#[verifier::external_body]
pub(crate) fn cell_set_insert(s: &mut CellHashSet, c: CellId) -> (r: bool)
    ensures
        cell_set(*final(s)) == cell_set(*old(s)).insert(c),
        r == !cell_set(*old(s)).contains(c),
{
    s.insert(c)
}

/// `HashSet::remove`: removes `c`, returning whether it was present.
#[verifier::external_body]
pub(crate) fn cell_set_remove(s: &mut CellHashSet, c: &CellId) -> (r: bool)
    ensures
        cell_set(*final(s)) == cell_set(*old(s)).remove(*c),
        r == cell_set(*old(s)).contains(*c),
{
    s.remove(c)
}

/// `HashSet::contains`.
#[verifier::external_body]
pub(crate) fn cell_set_contains(s: &CellHashSet, c: &CellId) -> (r: bool)
    ensures
        r == cell_set(*s).contains(*c),
{
    s.contains(c)
}

/// `HashSet::clear`.
#[verifier::external_body]
pub(crate) fn cell_set_clear(s: &mut CellHashSet)
    ensures
        cell_set(*final(s)) == Set::<CellId>::empty(),
{
    s.clear()
}

/// `HashSet::is_empty`.
#[verifier::external_body]
pub(crate) fn cell_set_is_empty(s: &CellHashSet) -> (r: bool)
    ensures
        r == (cell_set(*s) == Set::<CellId>::empty()),
{
    s.is_empty()
}

/// `HashSet::len`: the number of cells.
#[verifier::external_body]
pub(crate) fn cell_set_len(s: &CellHashSet) -> (r: usize)
    ensures
        r == cell_set(*s).len(),
{
    s.len()
}

/// `HashSet::iter`, collected: every cell once, in the set's iteration order.
#[verifier::external_body]
pub(crate) fn cell_set_to_vec(s: &CellHashSet) -> (r: Vec<CellId>)
    ensures
        r@.no_duplicates(),
        r@.to_set() == cell_set(*s),
{
    s.iter().copied().collect()
}

/// `HashSet::iter().next()`: some cell of the set, or `None` when the set is empty. Which cell
/// comes first depends on the set's iteration order, which is not stated.
#[verifier::external_body]
pub(crate) fn cell_set_first(s: &CellHashSet) -> (r: Option<CellId>)
    ensures
        r is None <==> cell_set(*s) == Set::<CellId>::empty(),
        r matches Some(c) ==> cell_set(*s).contains(c),
{
    s.iter().next().copied()
}

/// `Extend::extend` of a set of cells with another set: adds every cell of `other`.
#[verifier::external_body]
pub(crate) fn cell_set_extend(s: &mut CellHashSet, other: CellHashSet)
    ensures
        cell_set(*final(s)) == cell_set(*old(s)).union(cell_set(other)),
{
    s.extend(other)
}

// ------------------------------------------------------------------------------------------------
// The map from occupied cells to their entries.
// ------------------------------------------------------------------------------------------------

/// The entries held by a map from cells to spatial hash entries.
pub uninterp spec fn cell_entries(m: CellEntryMap) -> Map<CellId, GridHashEntry>;

/// `HashMap::default`: an empty map.
#[verifier::external_body]
pub(crate) fn cell_entries_new() -> (r: CellEntryMap)
    ensures
        cell_entries(r).dom() == Set::<CellId>::empty(),
{
    HashMap::default()
}

/// `HashMap::get`: the entry of `k`, if any.
#[verifier::external_body]
pub(crate) fn cell_entries_get<'a>(m: &'a CellEntryMap, k: &CellId) -> (r: Option<&'a GridHashEntry>)
    ensures
        r is Some <==> cell_entries(*m).contains_key(*k),
        r matches Some(e) ==> *e == cell_entries(*m)[*k],
{
    m.get(k)
}

/// `HashMap::contains_key`.
#[verifier::external_body]
pub(crate) fn cell_entries_contains(m: &CellEntryMap, k: &CellId) -> (r: bool)
    ensures
        r == cell_entries(*m).contains_key(*k),
{
    m.contains_key(k)
}

/// `HashMap::insert`: maps `k` to `v`, returning the previous entry of `k`.
#[verifier::external_body]
pub(crate) fn cell_entries_insert(m: &mut CellEntryMap, k: CellId, v: GridHashEntry) -> (r: Option<GridHashEntry>)
    ensures
        cell_entries(*final(m)) == cell_entries(*old(m)).insert(k, v),
        r is Some <==> cell_entries(*old(m)).contains_key(k),
        r matches Some(e) ==> e == cell_entries(*old(m))[k],
{
    m.insert(k, v)
}

/// `HashMap::remove`: removes `k`, returning its entry.
#[verifier::external_body]
pub(crate) fn cell_entries_remove(m: &mut CellEntryMap, k: &CellId) -> (r: Option<GridHashEntry>)
    ensures
        cell_entries(*final(m)) == cell_entries(*old(m)).remove(*k),
        r is Some <==> cell_entries(*old(m)).contains_key(*k),
        r matches Some(e) ==> e == cell_entries(*old(m))[*k],
{
    m.remove(k)
}

/// `HashMap::len`: the number of entries.
#[verifier::external_body]
pub(crate) fn cell_entries_len(m: &CellEntryMap) -> (r: usize)
    ensures
        r == cell_entries(*m).len(),
{
    m.len()
}

/// `HashMap::keys`, collected: every occupied cell once, in the map's iteration order.
#[verifier::external_body]
pub(crate) fn cell_entries_keys(m: &CellEntryMap) -> (r: Vec<CellId>)
    ensures
        r@.no_duplicates(),
        r@.to_set() == cell_entries(*m).dom(),
{
    m.keys().copied().collect()
}

// ------------------------------------------------------------------------------------------------
// The map from entities to the cell they were last seen in.
// ------------------------------------------------------------------------------------------------

/// The pairs held by a map from entities to cells.
pub uninterp spec fn entity_cells(m: EntityCellMap) -> Map<u64, CellId>;

/// `HashMap::default`: an empty map.
#[verifier::external_body]
pub(crate) fn entity_cells_new() -> (r: EntityCellMap)
    ensures
        entity_cells(r).dom() == Set::<u64>::empty(),
{
    HashMap::default()
}

/// `HashMap::get`, copied: the cell of `e`, if any.
#[verifier::external_body]
pub(crate) fn entity_cells_get(m: &EntityCellMap, e: &u64) -> (r: Option<CellId>)
    ensures
        r is Some <==> entity_cells(*m).contains_key(*e),
        r matches Some(c) ==> c == entity_cells(*m)[*e],
{
    m.get(e).copied()
}

/// `HashMap::insert`: maps `e` to `c`, returning the previous cell of `e`.
#[verifier::external_body]
pub(crate) fn entity_cells_insert(m: &mut EntityCellMap, e: u64, c: CellId) -> (r: Option<CellId>)
    ensures
        entity_cells(*final(m)) == entity_cells(*old(m)).insert(e, c),
        r is Some <==> entity_cells(*old(m)).contains_key(e),
        r matches Some(x) ==> x == entity_cells(*old(m))[e],
{
    m.insert(e, c)
}

/// `HashMap::remove`: removes `e`, returning its cell.
#[verifier::external_body]
pub(crate) fn entity_cells_remove(m: &mut EntityCellMap, e: &u64) -> (r: Option<CellId>)
    ensures
        entity_cells(*final(m)) == entity_cells(*old(m)).remove(*e),
        r is Some <==> entity_cells(*old(m)).contains_key(*e),
        r matches Some(x) ==> x == entity_cells(*old(m))[*e],
{
    m.remove(e)
}

// ------------------------------------------------------------------------------------------------
// The map from partition identifiers to partitions.
// ------------------------------------------------------------------------------------------------

/// The partitions held by a map from identifiers to partitions.
pub uninterp spec fn partition_map(m: PartitionMap) -> Map<PartitionId, Partition>;

/// `HashMap::default`: an empty map.
#[verifier::external_body]
pub(crate) fn partitions_new() -> (r: PartitionMap)
    ensures
        partition_map(r).dom() == Set::<PartitionId>::empty(),
{
    HashMap::default()
}

/// `HashMap::get`: the partition of `k`, if any.
#[verifier::external_body]
pub(crate) fn partitions_get<'a>(m: &'a PartitionMap, k: &PartitionId) -> (r: Option<&'a Partition>)
    ensures
        r is Some <==> partition_map(*m).contains_key(*k),
        r matches Some(p) ==> *p == partition_map(*m)[*k],
{
    m.get(k)
}

/// `HashMap::insert`: maps `k` to `v`, returning the previous partition of `k`.
#[verifier::external_body]
pub(crate) fn partitions_insert(m: &mut PartitionMap, k: PartitionId, v: Partition) -> (r: Option<Partition>)
    ensures
        partition_map(*final(m)) == partition_map(*old(m)).insert(k, v),
        r is Some <==> partition_map(*old(m)).contains_key(k),
        r matches Some(p) ==> p == partition_map(*old(m))[k],
{
    m.insert(k, v)
}

/// `HashMap::remove`: removes `k`, returning its partition.
#[verifier::external_body]
pub(crate) fn partitions_remove(m: &mut PartitionMap, k: &PartitionId) -> (r: Option<Partition>)
    ensures
        partition_map(*final(m)) == partition_map(*old(m)).remove(*k),
        r is Some <==> partition_map(*old(m)).contains_key(*k),
        r matches Some(p) ==> p == partition_map(*old(m))[*k],
{
    m.remove(k)
}

/// `HashMap::iter`, collected: every identifier once with its partition, in the map's iteration
/// order.
#[verifier::external_body]
pub(crate) fn partitions_iter(m: &PartitionMap) -> (r: Vec<(PartitionId, &Partition)>)
    ensures
        forall|i: int, j: int| 0 <= i < j < r@.len() ==> r@[i].0 != r@[j].0,
        forall|i: int| 0 <= i < r@.len() ==> partition_map(*m).contains_key((#[trigger] r@[i]).0)
            && *r@[i].1 == partition_map(*m)[r@[i].0],
        forall|k: PartitionId| #[trigger] partition_map(*m).contains_key(k) ==> exists|i: int| 0 <= i < r@.len() && r@[i].0 == k,
{
    m.iter().map(|(k, v)| (*k, v)).collect()
}

// ------------------------------------------------------------------------------------------------
// The map from cells to the identifier of the partition that holds them.
// ------------------------------------------------------------------------------------------------

/// The pairs held by a map from cells to partition identifiers.
pub uninterp spec fn cell_owners(m: CellPartitionMap) -> Map<CellId, PartitionId>;

/// `HashMap::default`: an empty map.
#[verifier::external_body]
pub(crate) fn owners_new() -> (r: CellPartitionMap)
    ensures
        cell_owners(r).dom() == Set::<CellId>::empty(),
{
    HashMap::default()
}

/// `HashMap::get`: the partition identifier of `k`, if any.
#[verifier::external_body]
pub(crate) fn owners_get<'a>(m: &'a CellPartitionMap, k: &CellId) -> (r: Option<&'a PartitionId>)
    ensures
        r is Some <==> cell_owners(*m).contains_key(*k),
        r matches Some(p) ==> *p == cell_owners(*m)[*k],
{
    m.get(k)
}

/// `HashMap::insert`: maps `k` to `v`, returning the previous identifier of `k`.
#[verifier::external_body]
pub(crate) fn owners_insert(m: &mut CellPartitionMap, k: CellId, v: PartitionId) -> (r: Option<PartitionId>)
    ensures
        cell_owners(*final(m)) == cell_owners(*old(m)).insert(k, v),
        r is Some <==> cell_owners(*old(m)).contains_key(k),
        r matches Some(p) ==> p == cell_owners(*old(m))[k],
{
    m.insert(k, v)
}

/// `HashMap::remove`: removes `k`, returning its identifier.
#[verifier::external_body]
pub(crate) fn owners_remove(m: &mut CellPartitionMap, k: &CellId) -> (r: Option<PartitionId>)
    ensures
        cell_owners(*final(m)) == cell_owners(*old(m)).remove(*k),
        r is Some <==> cell_owners(*old(m)).contains_key(*k),
        r matches Some(p) ==> p == cell_owners(*old(m))[*k],
{
    m.remove(k)
}

/// `HashMap::len`: the number of cells.
#[verifier::external_body]
pub(crate) fn owners_len(m: &CellPartitionMap) -> (r: usize)
    ensures
        r == cell_owners(*m).len(),
{
    m.len()
}

/// `Clone::clone`: a map with the same pairs.
#[verifier::external_body]
pub(crate) fn owners_clone(m: &CellPartitionMap) -> (r: CellPartitionMap)
    ensures
        cell_owners(r) == cell_owners(*m),
{
    m.clone()
}

// ------------------------------------------------------------------------------------------------
// The map from partitions to a set of their cells.
// ------------------------------------------------------------------------------------------------

/// The sets held by a map from partition identifiers to sets of cells.
pub uninterp spec fn partition_cells(m: PartitionCellsMap) -> Map<PartitionId, CellHashSet>;

/// `HashMap::default`: an empty map.
#[verifier::external_body]
pub(crate) fn partition_cells_new() -> (r: PartitionCellsMap)
    ensures
        partition_cells(r).dom() == Set::<PartitionId>::empty(),
{
    HashMap::default()
}

/// `HashMap::insert`: maps `k` to `v`, returning the previous set of `k`.
#[verifier::external_body]
pub(crate) fn partition_cells_insert(m: &mut PartitionCellsMap, k: PartitionId, v: CellHashSet) -> (r: Option<CellHashSet>)
    ensures
        partition_cells(*final(m)) == partition_cells(*old(m)).insert(k, v),
        r is Some <==> partition_cells(*old(m)).contains_key(k),
        r matches Some(s) ==> s == partition_cells(*old(m))[k],
{
    m.insert(k, v)
}

/// `HashMap::remove`: removes `k`, returning its set.
#[verifier::external_body]
pub(crate) fn partition_cells_remove(m: &mut PartitionCellsMap, k: &PartitionId) -> (r: Option<CellHashSet>)
    ensures
        partition_cells(*final(m)) == partition_cells(*old(m)).remove(*k),
        r is Some <==> partition_cells(*old(m)).contains_key(*k),
        r matches Some(s) ==> s == partition_cells(*old(m))[*k],
{
    m.remove(k)
}

/// `HashMap::drain`, collected: every identifier once with its set, in the map's iteration order,
/// leaving the map empty.
#[verifier::external_body]
pub(crate) fn partition_cells_drain(m: &mut PartitionCellsMap) -> (r: Vec<(PartitionId, CellHashSet)>)
    ensures
        partition_cells(*final(m)).dom() == Set::<PartitionId>::empty(),
        forall|i: int, j: int| 0 <= i < j < r@.len() ==> r@[i].0 != r@[j].0,
        forall|i: int| 0 <= i < r@.len() ==> partition_cells(*old(m)).contains_key((#[trigger] r@[i]).0)
            && r@[i].1 == partition_cells(*old(m))[r@[i].0],
        forall|k: PartitionId| #[trigger] partition_cells(*old(m)).contains_key(k) ==> exists|i: int| 0 <= i < r@.len() && r@[i].0 == k,
{
    m.drain().collect()
}

// ------------------------------------------------------------------------------------------------
// The map from entities to the identifier of their partition.
// ------------------------------------------------------------------------------------------------

/// The pairs held by a map from entities to partition identifiers.
pub uninterp spec fn entity_partitions(m: EntityPartitionMap) -> Map<u64, PartitionId>;

/// `HashMap::default`: an empty map.
#[verifier::external_body]
pub(crate) fn entity_partitions_new() -> (r: EntityPartitionMap)
    ensures
        entity_partitions(r).dom() == Set::<u64>::empty(),
{
    HashMap::default()
}

/// `HashMap::get`, copied: the partition identifier of `e`, if any.
#[verifier::external_body]
pub(crate) fn entity_partitions_get(m: &EntityPartitionMap, e: &u64) -> (r: Option<PartitionId>)
    ensures
        r is Some <==> entity_partitions(*m).contains_key(*e),
        r matches Some(p) ==> p == entity_partitions(*m)[*e],
{
    m.get(e).copied()
}

/// `HashMap::insert`: maps `e` to `p`, returning the previous identifier of `e`.
#[verifier::external_body]
pub(crate) fn entity_partitions_insert(m: &mut EntityPartitionMap, e: u64, p: PartitionId) -> (r: Option<PartitionId>)
    ensures
        entity_partitions(*final(m)) == entity_partitions(*old(m)).insert(e, p),
        r is Some <==> entity_partitions(*old(m)).contains_key(e),
        r matches Some(x) ==> x == entity_partitions(*old(m))[e],
{
    m.insert(e, p)
}

/// `HashMap::remove`: removes `e`, returning its identifier.
#[verifier::external_body]
pub(crate) fn entity_partitions_remove(m: &mut EntityPartitionMap, e: &u64) -> (r: Option<PartitionId>)
    ensures
        entity_partitions(*final(m)) == entity_partitions(*old(m)).remove(*e),
        r is Some <==> entity_partitions(*old(m)).contains_key(*e),
        r matches Some(x) ==> x == entity_partitions(*old(m))[*e],
{
    m.remove(e)
}

// ------------------------------------------------------------------------------------------------
// The map from entities to their change of partition.
// ------------------------------------------------------------------------------------------------

/// The pairs held by a map from entities to changes of partition.
pub uninterp spec fn entity_changes(m: EntityChangeMap) -> Map<u64, PartitionChange>;

/// `HashMap::default`: an empty map.
#[verifier::external_body]
pub(crate) fn entity_changes_new() -> (r: EntityChangeMap)
    ensures
        entity_changes(r).dom() == Set::<u64>::empty(),
{
    HashMap::default()
}

/// `HashMap::get`, copied: the change of `e`, if any.
#[verifier::external_body]
pub(crate) fn entity_changes_get(m: &EntityChangeMap, e: &u64) -> (r: Option<PartitionChange>)
    ensures
        r is Some <==> entity_changes(*m).contains_key(*e),
        r matches Some(c) ==> c == entity_changes(*m)[*e],
{
    m.get(e).copied()
}

/// `HashMap::insert`: maps `e` to `c`, returning the previous change of `e`.
#[verifier::external_body]
pub(crate) fn entity_changes_insert(m: &mut EntityChangeMap, e: u64, c: PartitionChange) -> (r: Option<PartitionChange>)
    ensures
        entity_changes(*final(m)) == entity_changes(*old(m)).insert(e, c),
        r is Some <==> entity_changes(*old(m)).contains_key(e),
        r matches Some(x) ==> x == entity_changes(*old(m))[e],
{
    m.insert(e, c)
}

/// `HashMap::clear`.
#[verifier::external_body]
pub(crate) fn entity_changes_clear(m: &mut EntityChangeMap)
    ensures
        entity_changes(*final(m)).dom() == Set::<u64>::empty(),
{
    m.clear()
}

/// `HashMap::iter`, copied: every entity once with its change, in the map's iteration order.
#[verifier::external_body]
pub(crate) fn entity_changes_to_vec(m: &EntityChangeMap) -> (r: Vec<(u64, PartitionChange)>)
    ensures
        forall|i: int, j: int| 0 <= i < j < r@.len() ==> r@[i].0 != r@[j].0,
        forall|i: int| 0 <= i < r@.len() ==> entity_changes(*m).contains_key((#[trigger] r@[i]).0)
            && r@[i].1 == entity_changes(*m)[r@[i].0],
        forall|e: u64| #[trigger] entity_changes(*m).contains_key(e) ==> exists|i: int| 0 <= i < r@.len() && r@[i].0 == e,
{
    m.iter().map(|(e, c)| (*e, *c)).collect()
}

} // verus!
