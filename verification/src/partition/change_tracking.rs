//! Tracking which partition each entity is in, and which entities changed partition in the last
//! update.

use vstd::prelude::*;
use crate::collections::{
    CellPartitionMap, EntityChangeMap, EntityPartitionMap, PartitionChange, cell_owners,
    entity_changes, entity_changes_clear, entity_changes_get, entity_changes_insert,
    entity_changes_new, entity_changes_to_vec, entity_partitions, entity_partitions_get,
    entity_partitions_insert, entity_partitions_new, entity_partitions_remove,
    owners_get, owners_new, entity_set, entity_set_new, entity_set_insert, entity_set_contains,
    EntitySet,
};
use crate::hash::component::CellId;
use crate::hash::map::GridHashMap;
use crate::partition::PartitionId;
use crate::partition::map::PartitionLookup;

verus! {

/// The change recorded for an entity that moved cells, given what was recorded for it earlier in
/// the same update: the earliest known source is kept.
pub open spec fn merge_change(existing: Option<PartitionChange>, change: PartitionChange) -> PartitionChange {
    match existing {
        Some(e) => (if e.0 is None { change.0 } else { e.0 }, change.1),
        None => change,
    }
}

/// The value of `m` at `k` as an option.
pub open spec fn lookup<K, V>(m: Map<K, V>, k: K) -> Option<V> {
    if m.contains_key(k) { Some(m[k]) } else { None }
}

/// The changes recorded for the entities that moved cells, processed in order. Each is given with
/// its current cell, or `None` if it has no cell any more. An entity whose partition is unchanged
/// records nothing.
pub open spec fn moved_changes(
    map: Map<u64, PartitionId>,
    owner: Map<CellId, PartitionId>,
    moved: Seq<(u64, Option<CellId>)>,
) -> Map<u64, PartitionChange>
    decreases moved.len(),
{
    if moved.len() == 0 {
        Map::empty()
    } else {
        let prev = moved_changes(map, owner, moved.drop_last());
        let e = moved.last().0;
        match moved.last().1 {
            Some(c) => {
                let new_pid = lookup(owner, c);
                let old_pid = lookup(map, e);
                if old_pid == new_pid {
                    prev
                } else {
                    prev.insert(e, merge_change(lookup(prev, e), (old_pid, new_pid)))
                }
            },
            None => if map.contains_key(e) {
                prev.insert(e, (Some(map[e]), None))
            } else {
                prev
            },
        }
    }
}

/// The change of an entity that did not move, caused by its cell changing partition: from the
/// partition the cell was in at the previous update to the one it is in now.
pub open spec fn cell_change(
    cell_of: Map<u64, CellId>,
    owner: Map<CellId, PartitionId>,
    old_owner: Map<CellId, PartitionId>,
    e: u64,
) -> Option<PartitionChange> {
    if cell_of.contains_key(e) && owner.contains_key(cell_of[e]) && old_owner.contains_key(cell_of[e])
        && owner[cell_of[e]] != old_owner[cell_of[e]] {
        Some((Some(old_owner[cell_of[e]]), Some(owner[cell_of[e]])))
    } else {
        None
    }
}

/// The entities listed in `moved`.
pub open spec fn moved_entities(moved: Seq<(u64, Option<CellId>)>) -> Set<u64> {
    Set::new(|e: u64| exists|i: int| 0 <= i < moved.len() && (#[trigger] moved[i]).0 == e)
}

/// All changes of an update: those of the moved entities (`moved`, computed for the entities of
/// `movers`), and those caused by cells changing partition for the entities of the cells in
/// `visited` that did not move.
pub open spec fn all_changes(
    moved: Map<u64, PartitionChange>,
    movers: Set<u64>,
    cell_of: Map<u64, CellId>,
    owner: Map<CellId, PartitionId>,
    old_owner: Map<CellId, PartitionId>,
    visited: Set<CellId>,
) -> Map<u64, PartitionChange> {
    Map::new(
        |e: u64| moved.contains_key(e) || (!movers.contains(e) && cell_change(cell_of, owner, old_owner, e) is Some
            && visited.contains(cell_of[e])),
        |e: u64| if moved.contains_key(e) { moved[e] } else { cell_change(cell_of, owner, old_owner, e)->0 },
    )
}

/// The partition of each entity after applying the changes: entities that joined a partition are
/// in it, those that left all partitions are forgotten, and the others are unchanged.
pub open spec fn apply_changes(map: Map<u64, PartitionId>, changed: Map<u64, PartitionChange>) -> Map<u64, PartitionId> {
    Map::new(
        |e: u64| if changed.contains_key(e) { changed[e].1 is Some } else { map.contains_key(e) },
        |e: u64| if changed.contains_key(e) { changed[e].1->0 } else { map[e] },
    )
}

/// Whether `e` is among the first `j` entities of `list`.
pub open spec fn listed(list: Seq<(u64, PartitionChange)>, j: int, e: u64) -> bool {
    exists|a: int| 0 <= a < j && (#[trigger] list[a]).0 == e
}

/// Tracks which partition each entity belongs to, and which entities changed partition in the
/// last update.
pub struct PartitionEntities {
    /// The partition of each entity as of the last update.
    pub map: EntityPartitionMap,
    /// The entities that changed partition in the last update, with the partition each left and
    /// the one it joined.
    pub changed: EntityChangeMap,
    /// The partition of each cell as of the last update.
    old_reverse: CellPartitionMap,
}

impl PartitionEntities {
    /// The partition of each entity.
    pub closed spec fn partition_of(&self) -> Map<u64, PartitionId> {
        entity_partitions(self.map)
    }

    /// The changes of partition of the last update.
    pub closed spec fn changes(&self) -> Map<u64, PartitionChange> {
        entity_changes(self.changed)
    }

    /// The partition of each cell as of the last update.
    pub closed spec fn previous_owner(&self) -> Map<CellId, PartitionId> {
        cell_owners(self.old_reverse)
    }

    /// Creates a tracker that knows of no entity.
    pub fn new() -> (r: Self)
        ensures
            r.partition_of().dom() == Set::<u64>::empty(),
            r.changes().dom() == Set::<u64>::empty(),
            r.previous_owner().dom() == Set::<CellId>::empty(),
    {
        PartitionEntities { map: entity_partitions_new(), changed: entity_changes_new(), old_reverse: owners_new() }
    }

    /// Records the partition changes of the last update.
    ///
    /// `moved` lists the entities that moved between cells, each with its current cell, or
    /// `None` if it has no cell any more. Their changes are recorded first, each from the
    /// entity's recorded partition to the partition of its cell; then every entity that did not
    /// move, in a cell whose partition changed, is recorded as moving from the cell's previous
    /// partition to its current one. Finally the changes are applied to the partition of each
    /// entity, and the partition of each cell is remembered for the next update. When the
    /// recorded partitions were those of the entities' cells and `moved` lists exactly the
    /// entities whose cell changed, an entity is recorded exactly when its partition changed.
    pub fn update(&mut self, cells: &GridHashMap, moved: &Vec<(u64, Option<CellId>)>, partitions: &PartitionLookup)
        requires
            cells.well_formed(),
        ensures
            final(self).changes() == all_changes(
                moved_changes(old(self).partition_of(), partitions.owner(), moved@),
                moved_entities(moved@),
                cells.cell_of(),
                partitions.owner(),
                old(self).previous_owner(),
                cells.occupied(),
            ),
            final(self).partition_of() == apply_changes(old(self).partition_of(), final(self).changes()),
            final(self).previous_owner() == partitions.owner(),
            forall|before: Map<u64, CellId>| #![trigger moves_between(before, cells.cell_of(), moved@)]
                tracks_partitions(old(self).partition_of(), before, old(self).previous_owner())
                && (forall|e: u64| #[trigger] before.contains_key(e) ==> old(self).previous_owner().contains_key(before[e]))
                && moves_between(before, cells.cell_of(), moved@)
                ==> forall|e: u64| #![trigger final(self).changes().contains_key(e)]
                    (final(self).changes().contains_key(e)
                        <==> lookup(old(self).partition_of(), e) != lookup(final(self).partition_of(), e))
                    && (final(self).changes().contains_key(e) ==> final(self).changes()[e]
                        == (lookup(old(self).partition_of(), e), lookup(final(self).partition_of(), e))),
    {
        let ghost map0 = entity_partitions(self.map);
        let ghost owner = partitions.owner();
        entity_changes_clear(&mut self.changed);
        // The entities that moved between cells.
        let mut movers: EntitySet = entity_set_new();
        let mut q: usize = 0;
        while q < moved.len()
            invariant
                0 <= q <= moved@.len(),
                forall|e: u64| #[trigger] entity_set(movers).contains(e) <==>
                    exists|i: int| 0 <= i < q && (#[trigger] moved@[i]).0 == e,
            decreases moved@.len() - q,
        {
            entity_set_insert(&mut movers, moved[q].0);
            proof {
                assert forall|e: u64| #[trigger] entity_set(movers).contains(e) <==>
                    exists|i: int| 0 <= i < q + 1 && (#[trigger] moved@[i]).0 == e by {
                    if e == moved@[q as int].0 {
                        assert(moved@[q as int].0 == e);
                    }
                }
            }
            q += 1;
        }
        proof {
            assert(entity_set(movers) =~= moved_entities(moved@));
        }
        let ghost movers_set = entity_set(movers);
        // Entities that moved between cells.
        let mut k: usize = 0;
        proof {
            assert(moved@.take(0) == Seq::<(u64, Option<CellId>)>::empty());
            assert(entity_changes(self.changed) =~= moved_changes(map0, owner, moved@.take(0)));
        }
        while k < moved.len()
            invariant
                0 <= k <= moved@.len(),
                owner == partitions.owner(),
                entity_partitions(self.map) == map0,
                self.old_reverse == old(self).old_reverse,
                entity_changes(self.changed) == moved_changes(map0, owner, moved@.take(k as int)),
            decreases moved@.len() - k,
        {
            let (entity, cell) = moved[k];
            proof {
                assert(moved@.take(k as int + 1).drop_last() == moved@.take(k as int));
                assert(moved@.take(k as int + 1).last() == moved@[k as int]);
            }
            match cell {
                Some(cell_hash) => {
                    let new_pid: Option<PartitionId> = match partitions.get(&cell_hash) {
                        Some(p) => Some(*p),
                        None => None,
                    };
                    let old_pid = entity_partitions_get(&self.map, &entity);
                    let change = match (old_pid, new_pid) {
                        (Some(o), Some(n)) => if o == n { None } else { Some((old_pid, new_pid)) },
                        (None, None) => None,
                        _ => Some((old_pid, new_pid)),
                    };
                    match change {
                        Some((from, to)) => {
                            match entity_changes_get(&self.changed, &entity) {
                                Some((existing_from, _existing_to)) => {
                                    let from2 = if existing_from.is_none() { from } else { existing_from };
                                    entity_changes_insert(&mut self.changed, entity, (from2, to));
                                }
                                None => {
                                    entity_changes_insert(&mut self.changed, entity, (from, to));
                                }
                            }
                        }
                        None => {}
                    }
                }
                None => {
                    match entity_partitions_get(&self.map, &entity) {
                        Some(prev_pid) => {
                            entity_changes_insert(&mut self.changed, entity, (Some(prev_pid), None));
                        }
                        None => {}
                    }
                }
            }
            k += 1;
        }
        proof {
            assert(moved@.take(moved@.len() as int) == moved@);
        }
        let ghost moved_map = entity_changes(self.changed);
        let ghost old_owner = cell_owners(self.old_reverse);
        // Entities whose cell changed partition.
        let entries = cells.all_entries();
        let ghost cell_of = cells.cell_of();
        proof {
            cells.lemma_well_formed();
            assert(entity_changes(self.changed) =~= all_changes(moved_map, movers_set, cell_of, owner, old_owner, Set::<CellId>::empty()));
        }
        let mut i: usize = 0;
        while i < entries.len()
            invariant
                cells.well_formed(),
                cell_of == cells.cell_of(),
                owner == partitions.owner(),
                0 <= i <= entries@.len(),
                forall|a: int, b: int| 0 <= a < b < entries@.len() ==> entries@[a].0 != entries@[b].0,
                forall|a: int| 0 <= a < entries@.len() ==> cells.occupied().contains((#[trigger] entries@[a]).0)
                    && *entries@[a].1 == cells.entries()[entries@[a].0],
                forall|c: CellId| #[trigger] cells.occupied().contains(c) ==> exists|a: int| 0 <= a < entries@.len() && entries@[a].0 == c,
                entity_partitions(self.map) == map0,
                cell_owners(self.old_reverse) == old_owner,
                movers_set == entity_set(movers),
                entity_changes(self.changed) == all_changes(moved_map, movers_set, cell_of, owner, old_owner,
                    Set::new(|c: CellId| exists|a: int| 0 <= a < i && entries@[a].0 == c)),
            decreases entries@.len() - i,
        {
            let (cell_id, entry) = entries[i];
            let ghost before = entity_changes(self.changed);
            let ghost visited0 = Set::new(|c: CellId| exists|a: int| 0 <= a < i && entries@[a].0 == c);
            let ghost visited1 = Set::new(|c: CellId| exists|a: int| 0 <= a < i + 1 && entries@[a].0 == c);
            proof {
                assert(visited1 =~= visited0.insert(cell_id)) by {
                    assert(entries@[i as int].0 == cell_id);
                }
                assert(!visited0.contains(cell_id)) by {
                    if visited0.contains(cell_id) {
                        let a = choose|a: int| 0 <= a < i && entries@[a].0 == cell_id;
                        assert(entries@[a].0 != entries@[i as int].0);
                    }
                }
            }
            match (partitions.get(&cell_id), owners_get(&self.old_reverse, &cell_id)) {
                (Some(new_ref), Some(old_ref)) => {
                    let new_pid = *new_ref;
                    let old_pid = *old_ref;
                    if new_pid != old_pid {
                        let ents = entry.entities();
                        let mut m: usize = 0;
                        while m < ents.len()
                            invariant
                                0 <= m <= ents@.len(),
                                ents@.no_duplicates(),
                                ents@.to_set() == entity_set(entry.entities),
                                entity_partitions(self.map) == map0,
                                cell_owners(self.old_reverse) == old_owner,
                                movers_set == entity_set(movers),
                                forall|e: u64| #[trigger] entity_changes(self.changed).contains_key(e) <==>
                                    before.contains_key(e) || (ents@.take(m as int).contains(e) && !movers_set.contains(e)),
                                forall|e: u64| #[trigger] entity_changes(self.changed).contains_key(e) ==>
                                    entity_changes(self.changed)[e] == if before.contains_key(e) { before[e] } else { (Some(old_pid), Some(new_pid)) },
                            decreases ents@.len() - m,
                        {
                            let e = ents[m];
                            let ghost c0 = entity_changes(self.changed);
                            if !entity_set_contains(&movers, &e) {
                                match entity_changes_get(&self.changed, &e) {
                                    Some(_) => {}
                                    None => {
                                        entity_changes_insert(&mut self.changed, e, (Some(old_pid), Some(new_pid)));
                                    }
                                }
                            }
                            proof {
                                assert(ents@.take(m as int + 1) == ents@.take(m as int).push(e));
                                assert forall|x: u64| ents@.take(m as int + 1).contains(x) <==> (ents@.take(m as int).contains(x) || x == e) by {
                                    vstd::seq_lib::lemma_seq_contains_after_push(ents@.take(m as int), e, x);
                                }
                            }
                            m += 1;
                        }
                        proof {
                            assert(ents@.take(ents@.len() as int) == ents@);
                            self.lemma_cell_step(cells, cell_of, owner, old_owner, moved_map, movers_set, visited0, cell_id, before,
                                entity_changes(self.changed), ents@);
                        }
                    } else {
                        proof {
                            self.lemma_cell_unchanged(cells, cell_of, owner, old_owner, moved_map, movers_set, visited0, cell_id, before);
                        }
                    }
                }
                _ => {
                    proof {
                        self.lemma_cell_unchanged(cells, cell_of, owner, old_owner, moved_map, movers_set, visited0, cell_id, before);
                    }
                }
            }
            i += 1;
        }
        proof {
            assert(Set::new(|c: CellId| exists|a: int| 0 <= a < entries@.len() && entries@[a].0 == c) =~= cells.occupied());
        }
        // Apply the changes to the partition of each entity.
        let list = entity_changes_to_vec(&self.changed);
        let ghost changed = entity_changes(self.changed);
        let mut j: usize = 0;
        while j < list.len()
            invariant
                0 <= j <= list@.len(),
                entity_changes(self.changed) == changed,
                forall|a: int, b: int| 0 <= a < b < list@.len() ==> list@[a].0 != list@[b].0,
                forall|a: int| 0 <= a < list@.len() ==> changed.contains_key((#[trigger] list@[a]).0) && list@[a].1 == changed[list@[a].0],
                forall|e: u64| #[trigger] changed.contains_key(e) ==> exists|a: int| 0 <= a < list@.len() && list@[a].0 == e,
                forall|e: u64| #![trigger entity_partitions(self.map).contains_key(e)]
                    entity_partitions(self.map).contains_key(e) <==>
                    if listed(list@, j as int, e) { changed[e].1 is Some } else { map0.contains_key(e) },
                forall|e: u64| #![trigger entity_partitions(self.map)[e]]
                    entity_partitions(self.map).contains_key(e) ==>
                    entity_partitions(self.map)[e] == if listed(list@, j as int, e) { changed[e].1->0 } else { map0[e] },
            decreases list@.len() - j,
        {
            let (entity, change) = list[j];
            let ghost m0 = entity_partitions(self.map);
            match change.1 {
                Some(pid) => {
                    entity_partitions_insert(&mut self.map, entity, pid);
                }
                None => {
                    entity_partitions_remove(&mut self.map, &entity);
                }
            }
            proof {
                assert forall|e: u64| #[trigger] listed(list@, j + 1, e) <==> (listed(list@, j as int, e) || e == entity) by {
                    if e == entity {
                        assert(list@[j as int].0 == e);
                    }
                    if listed(list@, j + 1, e) {
                        let a = choose|a: int| 0 <= a < j + 1 && (#[trigger] list@[a]).0 == e;
                        if a == j {
                            assert(e == entity);
                        }
                    }
                }
                assert(!listed(list@, j as int, entity)) by {
                    if listed(list@, j as int, entity) {
                        let a = choose|a: int| 0 <= a < j && (#[trigger] list@[a]).0 == entity;
                        assert(list@[a].0 != list@[j as int].0);
                    }
                }
            }
            j += 1;
        }
        proof {
            let target = apply_changes(map0, changed);
            assert forall|e: u64| #[trigger] listed(list@, list@.len() as int, e) <==> changed.contains_key(e) by {
                if changed.contains_key(e) {
                    let a = choose|a: int| 0 <= a < list@.len() && list@[a].0 == e;
                    assert(list@[a].0 == e);
                }
                if listed(list@, list@.len() as int, e) {
                    let a = choose|a: int| 0 <= a < list@.len() && (#[trigger] list@[a]).0 == e;
                }
            }
            assert forall|e: u64| entity_partitions(self.map).contains_key(e) <==> target.contains_key(e) by {
                assert(listed(list@, list@.len() as int, e) <==> changed.contains_key(e));
            }
            assert forall|e: u64| #[trigger] entity_partitions(self.map).contains_key(e) implies entity_partitions(self.map)[e] == target[e] by {
                assert(listed(list@, list@.len() as int, e) <==> changed.contains_key(e));
            }
            assert(entity_partitions(self.map) =~= target);
        }
        self.old_reverse = partitions.snapshot_owners();
        proof {
            let map0 = old(self).partition_of();
            let prev = old(self).previous_owner();
            assert forall|before: Map<u64, CellId>| #![trigger moves_between(before, cells.cell_of(), moved@)]
                tracks_partitions(map0, before, prev)
                && (forall|e: u64| #[trigger] before.contains_key(e) ==> prev.contains_key(before[e]))
                && moves_between(before, cells.cell_of(), moved@)
                implies forall|e: u64| #![trigger self.changes().contains_key(e)]
                    (self.changes().contains_key(e) <==> lookup(map0, e) != lookup(self.partition_of(), e))
                    && (self.changes().contains_key(e) ==> self.changes()[e] == (lookup(map0, e), lookup(self.partition_of(), e))) by {
                lemma_changes_exact(map0, before, prev, cells.cell_of(), partitions.owner(), cells.occupied(), moved@);
            }
        }
    }

    /// Visiting an occupied cell whose partition did not change adds no change.
    proof fn lemma_cell_unchanged(
        &self,
        cells: &GridHashMap,
        cell_of: Map<u64, CellId>,
        owner: Map<CellId, PartitionId>,
        old_owner: Map<CellId, PartitionId>,
        moved_map: Map<u64, PartitionChange>,
        movers: Set<u64>,
        visited: Set<CellId>,
        c: CellId,
        before: Map<u64, PartitionChange>,
    )
        requires
            cells.well_formed(),
            cell_of == cells.cell_of(),
            before == all_changes(moved_map, movers, cell_of, owner, old_owner, visited),
            !(owner.contains_key(c) && old_owner.contains_key(c) && owner[c] != old_owner[c]),
        ensures
            before == all_changes(moved_map, movers, cell_of, owner, old_owner, visited.insert(c)),
    {
        let after = all_changes(moved_map, movers, cell_of, owner, old_owner, visited.insert(c));
        assert forall|e: u64| before.contains_key(e) <==> after.contains_key(e) by {
            if cell_change(cell_of, owner, old_owner, e) is Some && cell_of[e] == c {
                assert(false);
            }
        }
        assert(before =~= after);
    }

    /// Visiting an occupied cell whose partition changed adds the change of each of its entities
    /// that has none yet.
    proof fn lemma_cell_step(
        &self,
        cells: &GridHashMap,
        cell_of: Map<u64, CellId>,
        owner: Map<CellId, PartitionId>,
        old_owner: Map<CellId, PartitionId>,
        moved_map: Map<u64, PartitionChange>,
        movers: Set<u64>,
        visited: Set<CellId>,
        c: CellId,
        before: Map<u64, PartitionChange>,
        after: Map<u64, PartitionChange>,
        ents: Seq<u64>,
    )
        requires
            cells.well_formed(),
            cell_of == cells.cell_of(),
            cells.occupied().contains(c),
            ents.to_set() == entity_set(cells.entries()[c].entities),
            before == all_changes(moved_map, movers, cell_of, owner, old_owner, visited),
            !visited.contains(c),
            owner.contains_key(c) && old_owner.contains_key(c) && owner[c] != old_owner[c],
            forall|e: u64| #[trigger] after.contains_key(e) <==> before.contains_key(e) || (ents.contains(e) && !movers.contains(e)),
            forall|e: u64| #[trigger] after.contains_key(e) ==>
                after[e] == if before.contains_key(e) { before[e] } else { (Some(old_owner[c]), Some(owner[c])) },
        ensures
            after == all_changes(moved_map, movers, cell_of, owner, old_owner, visited.insert(c)),
    {
        cells.lemma_well_formed();
        let target = all_changes(moved_map, movers, cell_of, owner, old_owner, visited.insert(c));
        assert forall|e: u64| ents.contains(e) <==> cell_of.contains_key(e) && cell_of[e] == c by {
            assert(ents.to_set().contains(e) == ents.contains(e));
            assert(cells.occupancy()[c] == entity_set(cells.entries()[c].entities));
        }
        assert forall|e: u64| after.contains_key(e) <==> target.contains_key(e) by {
        }
        assert forall|e: u64| #[trigger] after.contains_key(e) implies after[e] == target[e] by {
        }
        assert(after =~= target);
    }
}

/// The partition of each entity is the partition of its cell: an entity has a partition exactly
/// when it is in a cell that a partition holds.
pub open spec fn tracks_partitions(
    map: Map<u64, PartitionId>,
    cell_of: Map<u64, CellId>,
    owner: Map<CellId, PartitionId>,
) -> bool {
    forall|e: u64| #![trigger map.contains_key(e)] #![trigger cell_of.contains_key(e)]
        (map.contains_key(e) <==> cell_of.contains_key(e) && owner.contains_key(cell_of[e]))
        && (map.contains_key(e) ==> map[e] == owner[cell_of[e]])
}

/// `moved` lists each entity whose cell changed from `before` to `after`, once, with its cell in
/// `after`, if any; every other entity keeps its cell.
pub open spec fn moves_between(
    before: Map<u64, CellId>,
    after: Map<u64, CellId>,
    moved: Seq<(u64, Option<CellId>)>,
) -> bool {
    &&& forall|i: int, j: int| 0 <= i < j < moved.len() ==> (#[trigger] moved[i]).0 != (#[trigger] moved[j]).0
    &&& forall|i: int| 0 <= i < moved.len() ==> match (#[trigger] moved[i]).1 {
        Some(c) => after.contains_key(moved[i].0) && after[moved[i].0] == c,
        None => !after.contains_key(moved[i].0),
    }
    &&& forall|e: u64| #![trigger after.contains_key(e)] #![trigger before.contains_key(e)]
        (forall|i: int| 0 <= i < moved.len() ==> (#[trigger] moved[i]).0 != e)
        ==> (after.contains_key(e) <==> before.contains_key(e)) && (after.contains_key(e) ==> after[e] == before[e])
}

/// The change that `moved_changes` records for one entity, listed at most once.
proof fn lemma_moved_changes_at(
    map: Map<u64, PartitionId>,
    owner: Map<CellId, PartitionId>,
    moved: Seq<(u64, Option<CellId>)>,
    e: u64,
)
    requires
        forall|i: int, j: int| 0 <= i < j < moved.len() ==> (#[trigger] moved[i]).0 != (#[trigger] moved[j]).0,
    ensures
        (forall|i: int| 0 <= i < moved.len() ==> (#[trigger] moved[i]).0 != e)
            ==> !moved_changes(map, owner, moved).contains_key(e),
        forall|i: int| 0 <= i < moved.len() && (#[trigger] moved[i]).0 == e ==> match moved[i].1 {
            Some(c) => if lookup(map, e) == lookup(owner, c) {
                !moved_changes(map, owner, moved).contains_key(e)
            } else {
                moved_changes(map, owner, moved).contains_key(e)
                    && moved_changes(map, owner, moved)[e] == (lookup(map, e), lookup(owner, c))
            },
            None => if map.contains_key(e) {
                moved_changes(map, owner, moved).contains_key(e)
                    && moved_changes(map, owner, moved)[e] == (Some(map[e]), None::<PartitionId>)
            } else {
                !moved_changes(map, owner, moved).contains_key(e)
            },
        },
    decreases moved.len(),
{
    if moved.len() > 0 {
        let prefix = moved.drop_last();
        assert forall|i: int, j: int| 0 <= i < j < prefix.len() implies (#[trigger] prefix[i]).0 != (#[trigger] prefix[j]).0 by {
            assert(prefix[i] == moved[i]);
            assert(prefix[j] == moved[j]);
        }
        lemma_moved_changes_at(map, owner, prefix, e);
        let last = moved.last();
        assert(last == moved[moved.len() - 1]);
        if last.0 == e {
            assert forall|i: int| 0 <= i < prefix.len() implies (#[trigger] prefix[i]).0 != e by {
                assert(prefix[i] == moved[i]);
            }
        } else {
            assert forall|i: int| 0 <= i < moved.len() && (#[trigger] moved[i]).0 == e implies i < prefix.len()
                && prefix[i] == moved[i] by {
            }
        }
    }
}

/// The partition of each entity stays the partition of its cell across an update: when it held
/// before, `moved` lists exactly the entities whose cell changed, the partitions held every cell
/// of an entity before, and hold and visit every cell of an entity now, then the map given by the
/// recorded changes holds too.
pub proof fn lemma_partitions_tracked(
    map: Map<u64, PartitionId>,
    cells_before: Map<u64, CellId>,
    owner_before: Map<CellId, PartitionId>,
    cells_after: Map<u64, CellId>,
    owner: Map<CellId, PartitionId>,
    occupied: Set<CellId>,
    moved: Seq<(u64, Option<CellId>)>,
)
    requires
        tracks_partitions(map, cells_before, owner_before),
        forall|e: u64| #[trigger] cells_before.contains_key(e) ==> owner_before.contains_key(cells_before[e]),
        forall|e: u64| #[trigger] cells_after.contains_key(e) ==> owner.contains_key(cells_after[e])
            && occupied.contains(cells_after[e]),
        moves_between(cells_before, cells_after, moved),
    ensures
        tracks_partitions(
            apply_changes(map, all_changes(moved_changes(map, owner, moved), moved_entities(moved), cells_after, owner, owner_before, occupied)),
            cells_after,
            owner,
        ),
{
    let mc = moved_changes(map, owner, moved);
    let changes = all_changes(mc, moved_entities(moved), cells_after, owner, owner_before, occupied);
    let map2 = apply_changes(map, changes);
    assert forall|e: u64| #![trigger map2.contains_key(e)] #![trigger cells_after.contains_key(e)]
        (map2.contains_key(e) <==> cells_after.contains_key(e) && owner.contains_key(cells_after[e]))
        && (map2.contains_key(e) ==> map2[e] == owner[cells_after[e]]) by {
        lemma_moved_changes_at(map, owner, moved, e);
        if exists|i: int| 0 <= i < moved.len() && moved[i].0 == e {
            let i = choose|i: int| 0 <= i < moved.len() && moved[i].0 == e;
            assert(moved[i].0 == e);
            match moved[i].1 {
                Some(c) => {
                    assert(cells_after.contains_key(e) && cells_after[e] == c);
                    assert(owner.contains_key(c));
                },
                None => {
                    assert(!cells_after.contains_key(e));
                },
            }
        } else {
            assert(forall|i: int| 0 <= i < moved.len() ==> (#[trigger] moved[i]).0 != e);
            assert(!mc.contains_key(e));
            if cells_after.contains_key(e) {
                assert(cells_before.contains_key(e));
                assert(owner_before.contains_key(cells_before[e]));
                assert(map.contains_key(e));
            } else {
                assert(!cells_before.contains_key(e));
                assert(!map.contains_key(e));
            }
        }
    }
    assert(tracks_partitions(map2, cells_after, owner));
}

/// An entity is recorded as changed exactly when its partition before the update differs from
/// its partition after it, and the recorded change is that pair. This holds when the map tracked
/// the partitions of the cells before and `moved` lists exactly the entities whose cell changed.
pub proof fn lemma_changes_exact(
    map: Map<u64, PartitionId>,
    cells_before: Map<u64, CellId>,
    owner_before: Map<CellId, PartitionId>,
    cells_after: Map<u64, CellId>,
    owner: Map<CellId, PartitionId>,
    visited: Set<CellId>,
    moved: Seq<(u64, Option<CellId>)>,
)
    requires
        tracks_partitions(map, cells_before, owner_before),
        forall|e: u64| #[trigger] cells_before.contains_key(e) ==> owner_before.contains_key(cells_before[e]),
        moves_between(cells_before, cells_after, moved),
    ensures
        ({
            let changes = all_changes(moved_changes(map, owner, moved), moved_entities(moved), cells_after, owner, owner_before, visited);
            let map2 = apply_changes(map, changes);
            forall|e: u64| #![trigger changes.contains_key(e)]
                (changes.contains_key(e) <==> lookup(map, e) != lookup(map2, e))
                && (changes.contains_key(e) ==> changes[e] == (lookup(map, e), lookup(map2, e)))
        }),
{
    let mc = moved_changes(map, owner, moved);
    let changes = all_changes(mc, moved_entities(moved), cells_after, owner, owner_before, visited);
    let map2 = apply_changes(map, changes);
    assert forall|e: u64| #![trigger changes.contains_key(e)]
        (changes.contains_key(e) <==> lookup(map, e) != lookup(map2, e))
        && (changes.contains_key(e) ==> changes[e] == (lookup(map, e), lookup(map2, e))) by {
        lemma_moved_changes_at(map, owner, moved, e);
        if changes.contains_key(e) {
            if exists|i: int| 0 <= i < moved.len() && moved[i].0 == e {
                let i = choose|i: int| 0 <= i < moved.len() && moved[i].0 == e;
                assert(moved[i].0 == e);
                match moved[i].1 {
                    Some(c) => {
                        assert(cells_after.contains_key(e) && cells_after[e] == c);
                        if lookup(map, e) == lookup(owner, c) {
                            assert(!mc.contains_key(e));
                            assert(moved_entities(moved).contains(e));
                            assert(false);
                        }
                    },
                    None => {
                        assert(!cells_after.contains_key(e));
                    },
                }
            } else {
                assert(forall|i: int| 0 <= i < moved.len() ==> (#[trigger] moved[i]).0 != e);
                assert(!mc.contains_key(e));
                assert(cells_after.contains_key(e));
                assert(cells_before.contains_key(e));
                assert(map.contains_key(e));
            }
            assert(changes[e].0 != changes[e].1);
        }
    }
}

} // verus!
