//! The [`PartitionLookup`], which groups the occupied cells of a [`GridHashMap`] into
//! [`Partition`]s of connected cells.

use vstd::prelude::*;
use crate::collections::{
    CellHashSet, CellPartitionMap, PartitionCellsMap, PartitionMap, cell_owners, cell_set, cell_set_first,
    partition_cells, partition_cells_drain, partition_cells_insert, partition_cells_new, partition_cells_remove,
    cell_set_insert, cell_set_is_empty, cell_set_len, cell_set_new, cell_set_remove, cell_set_to_vec, owners_clone, owners_get, owners_insert, owners_len,
    owners_new, owners_remove,
    partition_map, partitions_get, partitions_insert, partitions_iter, partitions_new,
    partitions_remove,
};
use crate::hash::component::{CellId, touching, lemma_adjacent_one_ids};
use crate::hash::map::{GridHashMap, Neighbor, reachable, within_depth, lemma_reachable_symmetric, lemma_reachable_trans};
use crate::partition::PartitionId;
use crate::partition::components::{
    merge_parts, touched_parts, reach_set, are_components, is_component, lemma_components_add,
    lemma_component_survives, lemma_component_boundary, lemma_reach_set_component,
};
use crate::hash::component::{id_key, lemma_neighbors_symmetric};
use crate::hash::map::{lemma_reachable_mono, lemma_reachable_ends, lemma_closed_contains_reachable, lemma_reachable_self, lemma_reachable_step};
use crate::partition::growth::{
    grown_group, grows_alone, growing_alone, lemma_growing_init, lemma_growing_step, lemma_growing_end,
};
use crate::partition::private::{Partition, is_min_of, is_max_of, lemma_bounds_single, lemma_min_union, lemma_max_union};

verus! {

broadcast use vstd::seq_lib::lemma_seq_contains_after_push;

/// The internal invariants of a lookup, over its partitions, the owner of each cell, and the
/// next identifier to hand out.
pub open spec fn lookup_wf(parts: Map<PartitionId, Partition>, owner: Map<CellId, PartitionId>, next: u64) -> bool {
    &&& owner.dom().finite()
    &&& forall|id: PartitionId| #[trigger] parts.contains_key(id) ==> {
        &&& parts[id].wf()
        &&& parts[id].bounds_exact()
        &&& id.bits() < next
    }
    &&& forall|id: PartitionId, c: CellId| parts.contains_key(id) && #[trigger] parts[id].cells().contains(c) ==> {
        &&& c.wf()
        &&& c.grid_bits() == parts[id].grid_bits()
        &&& owner.contains_key(c)
        &&& owner[c] == id
    }
    &&& forall|c: CellId| #[trigger] owner.contains_key(c) ==> parts.contains_key(owner[c]) && parts[owner[c]].cells().contains(c)
}

/// The cells of each part after the parts of `ids` are all given to `keep`.
pub open spec fn merged_cells(
    before: Map<PartitionId, Set<CellId>>,
    ids: Set<PartitionId>,
    keep: PartitionId,
) -> Map<PartitionId, Set<CellId>> {
    Map::new(
        |i: PartitionId| (before.contains_key(i) && !ids.contains(i)) || i == keep,
        |i: PartitionId| if i == keep {
            Set::new(|c: CellId| exists|j: PartitionId| ids.contains(j) && before.contains_key(j) && #[trigger] before[j].contains(c))
        } else {
            before[i]
        },
    )
}

/// Giving the cells of partition `x` to partition `largest` keeps a lookup well-formed.
proof fn lemma_absorbed(
    full: Map<PartitionId, Partition>,
    owner0: Map<CellId, PartitionId>,
    owner1: Map<CellId, PartitionId>,
    next: u64,
    x: PartitionId,
    largest: PartitionId,
    partition: Partition,
    merged: Partition,
    parts: Map<PartitionId, Partition>,
)
    requires
        lookup_wf(full, owner0, next),
        full.contains_key(x),
        full[x] == partition,
        full.contains_key(largest),
        x != largest,
        owner1.dom() == owner0.dom(),
        forall|c: CellId| #[trigger] owner1.contains_key(c) ==>
            owner1[c] == if partition.cells().contains(c) { largest } else { owner0[c] },
        parts == full.remove(x).insert(largest, merged),
        merged.wf(),
        full[largest].bounds_exact() && partition.bounds_exact() ==> merged.bounds_exact(),
        merged.cells() == full[largest].cells().union(partition.cells()),
        merged.grid_bits() == full[largest].grid_bits(),
        partition.grid_bits() == full[largest].grid_bits(),
    ensures
        lookup_wf(parts, owner1, next),
{
    assert(full[largest].bounds_exact() && full[x].bounds_exact());
    assert forall|id: PartitionId| #[trigger] parts.contains_key(id) implies {
        &&& parts[id].wf()
        &&& parts[id].bounds_exact()
        &&& id.bits() < next
    } by {
        assert(full.contains_key(id));
    }
    assert forall|id: PartitionId, c: CellId| parts.contains_key(id) && #[trigger] parts[id].cells().contains(c) implies {
        &&& c.wf()
        &&& c.grid_bits() == parts[id].grid_bits()
        &&& owner1.contains_key(c)
        &&& owner1[c] == id
    } by {
        if id == largest {
            if partition.cells().contains(c) {
                assert(full[x].cells().contains(c));
            } else {
                assert(full[largest].cells().contains(c));
            }
        } else {
            assert(full[id].cells().contains(c));
            if partition.cells().contains(c) {
                assert(full[x].cells().contains(c));
            }
        }
    }
    assert forall|c: CellId| #[trigger] owner1.contains_key(c) implies
        parts.contains_key(owner1[c]) && parts[owner1[c]].cells().contains(c) by {
        assert(owner0.contains_key(c));
        if !partition.cells().contains(c) {
            let id = owner0[c];
            assert(full.contains_key(id) && full[id].cells().contains(c));
            if id == x {
                assert(partition.cells().contains(c));
            }
        }
    }
}

/// The cells visited by a flood fill without a depth limit from an occupied cell are the cells
/// reachable from it.
proof fn lemma_flood_all(cells: &GridHashMap, seed: CellId, r: Seq<Neighbor>)
    requires
        cells.occupied().contains(seed),
        exists|order: Seq<CellId>| {
            &&& #[trigger] cells.is_flood_order(seed, order)
            &&& r.len() <= order.len()
            &&& forall|i: int| 0 <= i < r.len() ==> within_depth(#[trigger] order[i], seed.cell(), None)
            &&& r.len() < order.len() ==> !within_depth(order[r.len() as int], seed.cell(), None)
            &&& forall|i: int| 0 <= i < r.len() ==> (#[trigger] r[i]).0 == order[i] && *r[i].1 == cells.entries()[order[i]]
        },
    ensures
        r.len() >= 1,
        r[0].0 == seed,
        forall|c: CellId| reachable(cells.occupied(), seed, c) <==> exists|i: int| 0 <= i < r.len() && (#[trigger] r[i]).0 == c,
{
    let order = choose|order: Seq<CellId>| {
        &&& #[trigger] cells.is_flood_order(seed, order)
        &&& r.len() <= order.len()
        &&& forall|i: int| 0 <= i < r.len() ==> within_depth(#[trigger] order[i], seed.cell(), None)
        &&& r.len() < order.len() ==> !within_depth(order[r.len() as int], seed.cell(), None)
        &&& forall|i: int| 0 <= i < r.len() ==> (#[trigger] r[i]).0 == order[i] && *r[i].1 == cells.entries()[order[i]]
    };
    assert(r.len() == order.len());
    assert(r[0].0 == order[0]);
    assert forall|c: CellId| reachable(cells.occupied(), seed, c) <==> exists|i: int| 0 <= i < r.len() && (#[trigger] r[i]).0 == c by {
        if reachable(cells.occupied(), seed, c) {
            assert(order.contains(c));
            let i = choose|i: int| 0 <= i < order.len() && order[i] == c;
            assert(r[i].0 == c);
        }
        if exists|i: int| 0 <= i < r.len() && (#[trigger] r[i]).0 == c {
            let i = choose|i: int| 0 <= i < r.len() && (#[trigger] r[i]).0 == c;
            assert(order[i] == c);
            assert(order.contains(c));
        }
    }
}

/// Removes from `adjacent` the cells reached by a flood fill from `this_cell`, stopping as soon as
/// `adjacent` is empty.
fn remove_flooded(cells: &GridHashMap, this_cell: &CellId, adjacent: &mut CellHashSet)
    requires
        cells.well_formed(),
        cells.occupied().contains(*this_cell),
    ensures
        forall|c: CellId| #[trigger] cell_set(*final(adjacent)).contains(c) ==>
            cell_set(*old(adjacent)).contains(c) && !reachable(cells.occupied(), *this_cell, c),
        forall|c: CellId| cell_set(*old(adjacent)).contains(c) && !cell_set(*final(adjacent)).contains(c) ==>
            reachable(cells.occupied(), *this_cell, c),
        !cell_set(*final(adjacent)).contains(*this_cell),
{
    let ghost adj0 = cell_set(*adjacent);
    let flooded = cells.flood(this_cell, None);
    proof {
        lemma_flood_all(cells, *this_cell, flooded@);
    }
    let mut j: usize = 0;
    while j < flooded.len()
        invariant_except_break
            0 <= j <= flooded@.len(),
            flooded@.len() >= 1,
            flooded@[0].0 == *this_cell,
            forall|c: CellId| #[trigger] cell_set(*adjacent).contains(c) <==>
                adj0.contains(c) && !(exists|k: int| 0 <= k < j && (#[trigger] flooded@[k]).0 == c),
        ensures
            forall|c: CellId| #[trigger] cell_set(*adjacent).contains(c) ==>
                adj0.contains(c) && !(exists|k: int| 0 <= k < flooded@.len() && (#[trigger] flooded@[k]).0 == c),
            forall|c: CellId| adj0.contains(c) && !cell_set(*adjacent).contains(c) ==>
                exists|k: int| 0 <= k < flooded@.len() && (#[trigger] flooded@[k]).0 == c,
            !cell_set(*adjacent).contains(*this_cell),
        decreases flooded@.len() - j,
    {
        let ghost prev = cell_set(*adjacent);
        cell_set_remove(adjacent, &flooded[j].0);
        proof {
            assert forall|c: CellId| #[trigger] cell_set(*adjacent).contains(c) <==>
                adj0.contains(c) && !(exists|k: int| 0 <= k < j + 1 && (#[trigger] flooded@[k]).0 == c) by {
                if exists|k: int| 0 <= k < j + 1 && (#[trigger] flooded@[k]).0 == c {
                    let k = choose|k: int| 0 <= k < j + 1 && (#[trigger] flooded@[k]).0 == c;
                    if k < j {
                        assert(!prev.contains(c));
                    }
                }
            }
            assert(flooded@[0].0 == *this_cell);
        }
        j += 1;
        if cell_set_is_empty(adjacent) {
            break;
        }
    }
}

/// The set of the cells reached by a flood fill from `seed`.
fn reach_cells(cells: &GridHashMap, seed: &CellId) -> (r: CellHashSet)
    requires
        cells.well_formed(),
        cells.occupied().contains(*seed),
    ensures
        cell_set(r) == reach_set(cells.occupied(), *seed),
{
    let mut set = cell_set_new();
    let again = cells.flood(seed, None);
    proof {
        lemma_flood_all(cells, *seed, again@);
    }
    let mut k: usize = 0;
    while k < again.len()
        invariant
            0 <= k <= again@.len(),
            forall|c: CellId| #[trigger] cell_set(set).contains(c) <==> exists|i: int| 0 <= i < k && (#[trigger] again@[i]).0 == c,
        decreases again@.len() - k,
    {
        let ghost prev = cell_set(set);
        cell_set_insert(&mut set, again[k].0);
        proof {
            assert forall|c: CellId| #[trigger] cell_set(set).contains(c) <==> exists|i: int| 0 <= i < k + 1 && (#[trigger] again@[i]).0 == c by {
                if c == again@[k as int].0 {
                    assert(again@[k as int].0 == c);
                }
                if exists|i: int| 0 <= i < k + 1 && (#[trigger] again@[i]).0 == c {
                    let i = choose|i: int| 0 <= i < k + 1 && (#[trigger] again@[i]).0 == c;
                    if i < k {
                        assert(prev.contains(c));
                    }
                }
            }
        }
        k += 1;
    }
    proof {
        assert(cell_set(set) =~= reach_set(cells.occupied(), *seed));
    }
    set
}

/// The groups of a split partition found so far: each is the set of cells reachable from its seed,
/// one of the candidates; every candidate no longer pending is in one of them, no pending
/// candidate is, and no two share a cell.
pub open spec fn split_progress(occ: Set<CellId>, cand0: Set<CellId>, pending: Set<CellId>, groups: Seq<CellHashSet>, seeds: Seq<CellId>) -> bool {
    &&& seeds.len() == groups.len()
    &&& forall|i: int| 0 <= i < groups.len() ==> cand0.contains(#[trigger] seeds[i])
        && cell_set(groups[i]) == reach_set(occ, seeds[i])
    &&& forall|c: CellId| #[trigger] cand0.contains(c) && !pending.contains(c) ==>
        exists|i: int| 0 <= i < groups.len() && cell_set(#[trigger] groups[i]).contains(c)
    &&& forall|c: CellId, i: int| #[trigger] pending.contains(c) && 0 <= i < groups.len()
        ==> !cell_set(#[trigger] groups[i]).contains(c)
    &&& forall|i: int, j: int| 0 <= i < groups.len() && 0 <= j < groups.len() && i != j ==>
        cell_set(#[trigger] groups[i]).disjoint(cell_set(#[trigger] groups[j]))
}

/// Whether `groups` are the groups of a finished split of the candidates `cand0`.
pub open spec fn split_found(occ: Set<CellId>, cand0: Set<CellId>, groups: Seq<CellHashSet>) -> bool {
    exists|seeds: Seq<CellId>| #[trigger] split_progress(occ, cand0, Set::<CellId>::empty(), groups, seeds)
}

/// Adding the group of the cells reachable from a pending candidate, after removing those cells
/// from the pending ones, keeps the progress of a split.
proof fn lemma_split_step(
    occ: Set<CellId>,
    cand0: Set<CellId>,
    pending: Set<CellId>,
    groups: Seq<CellHashSet>,
    seeds: Seq<CellId>,
    seed: CellId,
    pending2: Set<CellId>,
    group: CellHashSet,
)
    requires
        split_progress(occ, cand0, pending, groups, seeds),
        pending.subset_of(cand0),
        pending.contains(seed),
        cell_set(group) == reach_set(occ, seed),
        forall|c: CellId| #[trigger] pending2.contains(c) ==> pending.contains(c) && !reachable(occ, seed, c),
        forall|c: CellId| pending.contains(c) && !pending2.contains(c) ==> reachable(occ, seed, c),
    ensures
        split_progress(occ, cand0, pending2, groups.push(group), seeds.push(seed)),
{
    let g = groups.push(group);
    let sd = seeds.push(seed);
    assert(g[groups.len() as int] == group);
    assert forall|i: int| 0 <= i < g.len() implies cand0.contains(#[trigger] sd[i])
        && cell_set(g[i]) == reach_set(occ, sd[i]) by {
        if i < groups.len() {
            assert(g[i] == groups[i] && sd[i] == seeds[i]);
        } else {
            assert(cand0.contains(seed));
        }
    }
    assert forall|c: CellId| #[trigger] cand0.contains(c) && !pending2.contains(c) implies
        exists|i: int| 0 <= i < g.len() && cell_set(#[trigger] g[i]).contains(c) by {
        if pending.contains(c) {
            assert(cell_set(g[groups.len() as int]).contains(c));
        } else {
            let i = choose|i: int| 0 <= i < groups.len() && cell_set(#[trigger] groups[i]).contains(c);
            assert(g[i] == groups[i]);
        }
    }
    assert forall|c: CellId, i: int| #[trigger] pending2.contains(c) && 0 <= i < g.len()
        implies !cell_set(#[trigger] g[i]).contains(c) by {
        if i < groups.len() {
            assert(g[i] == groups[i]);
        }
    }
    assert forall|i: int, j: int| 0 <= i < g.len() && 0 <= j < g.len() && i != j implies
        cell_set(#[trigger] g[i]).disjoint(cell_set(#[trigger] g[j])) by {
        if i < groups.len() && j < groups.len() {
            assert(g[i] == groups[i] && g[j] == groups[j]);
        } else {
            let o = if i < groups.len() { i } else { j };
            assert(g[o] == groups[o]);
            let s = seeds[o];
            assert(cand0.contains(seeds[o]) && cell_set(groups[o]) == reach_set(occ, s));
            assert forall|y: CellId| cell_set(groups[o]).contains(y) implies !cell_set(group).contains(y) by {
                if cell_set(group).contains(y) {
                    lemma_reachable_symmetric(occ, seed, y);
                    lemma_reachable_trans(occ, s, y, seed);
                    assert(cell_set(groups[o]).contains(seed));
                }
            }
        }
    }
}

/// Finds the groups of connected cells that a set of cells of one partition falls into after
/// some cells of the partition became empty. Returns `None` when all of them are still connected
/// to the first one taken; otherwise, for each group, all occupied cells connected to it.
fn split_partition(cells: &GridHashMap, candidates: CellHashSet) -> (r: Option<Vec<CellHashSet>>)
    requires
        cells.well_formed(),
        cell_set(candidates).subset_of(cells.occupied()),
    ensures
        r is None ==> connected_to_one(cells.occupied(), cell_set(candidates)),
        r matches Some(v) ==> split_found(cells.occupied(), cell_set(candidates), v@),
        r is Some && cell_set(candidates) != Set::<CellId>::empty() ==> !all_connected(cells.occupied(), cell_set(candidates)),
{
    let ghost cand0 = cell_set(candidates);
    let ghost occ = cells.occupied();
    proof {
        cells.lemma_well_formed();
        vstd::set_lib::lemma_set_subset_finite(occ, cand0);
    }
    let total = cell_set_len(&candidates);
    let mut adjacent = candidates;
    let mut new_partitions: Vec<CellHashSet> = Vec::new();
    let mut counter: usize = 0;
    let ghost mut seeds: Seq<CellId> = Seq::empty();
    loop
        invariant_except_break
            cells.well_formed(),
            occ == cells.occupied(),
            cand0 == cell_set(candidates),
            cand0.subset_of(occ),
            total == cand0.len(),
            cand0.finite(),
            cell_set(adjacent).subset_of(cand0),
            counter == new_partitions@.len(),
            counter + cell_set(adjacent).len() <= cand0.len(),
            counter == 0 ==> cell_set(adjacent) == cand0,
            counter > 0 ==> !all_connected(occ, cand0),
            split_progress(occ, cand0, cell_set(adjacent), new_partitions@, seeds),
        ensures
            counter > 0 || cand0 == Set::<CellId>::empty(),
            counter > 0 ==> !all_connected(occ, cand0),
            split_progress(occ, cand0, Set::<CellId>::empty(), new_partitions@, seeds),
        decreases cell_set(adjacent).len(),
    {
        let this_cell = match cell_set_first(&adjacent) {
            Some(c) => c,
            None => {
                break;
            },
        };
        let ghost adj0 = cell_set(adjacent);
        proof {
            vstd::set_lib::lemma_set_subset_finite(cand0, adj0);
            vstd::set_lib::lemma_len_subset(adj0, cand0);
        }
        remove_flooded(cells, &this_cell, &mut adjacent);
        if cell_set_is_empty(&adjacent) && counter == 0 {
            proof {
                assert forall|c: CellId| cand0.contains(c) implies reachable(occ, this_cell, c) by {
                    assert(!cell_set(adjacent).contains(c));
                }
                assert(cand0.contains(this_cell));
                assert(cell_set(candidates).contains(this_cell));
            }
            return None;
        }
        proof {
            if counter == 0 {
                let c = cell_set(adjacent).choose();
                assert(cell_set(adjacent).contains(c)) by {
                    if !exists|x: CellId| cell_set(adjacent).contains(x) {
                        assert(cell_set(adjacent) =~= Set::<CellId>::empty());
                    }
                }
                assert(!reachable(occ, this_cell, c));
                assert(cand0.contains(this_cell) && cand0.contains(c));
            }
        }
        let set = reach_cells(cells, &this_cell);
        proof {
            lemma_split_step(occ, cand0, adj0, new_partitions@, seeds, this_cell, cell_set(adjacent), set);
            seeds = seeds.push(this_cell);
            assert(cell_set(adjacent).subset_of(adj0.remove(this_cell)));
            vstd::set_lib::lemma_len_subset(cell_set(adjacent), adj0.remove(this_cell));
        }
        new_partitions.push(set);
        counter += 1;
    }
    Some(new_partitions)
}

/// The invariants of a lookup while the cells of `pending` move to new partitions: those cells
/// are in no partition, and the reverse lookup still points them at the one they left.
pub open spec fn lookup_wf_pending(
    parts: Map<PartitionId, Partition>,
    owner: Map<CellId, PartitionId>,
    next: u64,
    pending: Set<CellId>,
) -> bool {
    &&& owner.dom().finite()
    &&& pending.subset_of(owner.dom())
    &&& forall|id: PartitionId| #[trigger] parts.contains_key(id) ==> {
        &&& parts[id].wf()
        &&& parts[id].bounds_exact()
        &&& id.bits() < next
    }
    &&& forall|id: PartitionId, c: CellId| parts.contains_key(id) && #[trigger] parts[id].cells().contains(c) ==> {
        &&& c.wf()
        &&& c.grid_bits() == parts[id].grid_bits()
        &&& owner.contains_key(c)
        &&& owner[c] == id
        &&& !pending.contains(c)
    }
    &&& forall|c: CellId| #[trigger] owner.contains_key(c) && !pending.contains(c) ==>
        parts.contains_key(owner[c]) && parts[owner[c]].cells().contains(c)
}

/// Moving the cells of `set`, all pending, into a partition under an identifier that is new or
/// that was just emptied keeps the invariants, with those cells no longer pending.
proof fn lemma_place_pending(
    parts0: Map<PartitionId, Partition>,
    owner0: Map<CellId, PartitionId>,
    next0: u64,
    pending0: Set<CellId>,
    parts1: Map<PartitionId, Partition>,
    owner1: Map<CellId, PartitionId>,
    next1: u64,
    id: PartitionId,
    set: Set<CellId>,
    grid: u64,
)
    requires
        lookup_wf_pending(parts0, owner0, next0, pending0),
        set.subset_of(pending0),
        forall|c: CellId| #[trigger] set.contains(c) ==> c.wf() && c.grid_bits() == grid,
        parts0.contains_key(id) ==> parts0[id].cells() == Set::<CellId>::empty(),
        id.bits() < next1,
        next0 <= next1,
        parts1.dom() == parts0.dom().insert(id),
        forall|i: PartitionId| i != id && #[trigger] parts0.contains_key(i) ==> parts1[i] == parts0[i],
        parts1[id].wf(),
        parts1[id].bounds_exact(),
        parts1[id].cells() == set,
        parts1[id].grid_bits() == grid,
        owner1.dom() == owner0.dom(),
        forall|c: CellId| #[trigger] owner1.contains_key(c) ==> owner1[c] == if set.contains(c) { id } else { owner0[c] },
    ensures
        lookup_wf_pending(parts1, owner1, next1, pending0.difference(set)),
{
    let pending1 = pending0.difference(set);
    assert forall|i: PartitionId| #[trigger] parts1.contains_key(i) implies {
        &&& parts1[i].wf()
        &&& parts1[i].bounds_exact()
        &&& i.bits() < next1
    } by {
        if i != id {
            assert(parts0.contains_key(i));
        }
    }
    assert forall|i: PartitionId, c: CellId| parts1.contains_key(i) && #[trigger] parts1[i].cells().contains(c) implies {
        &&& c.wf()
        &&& c.grid_bits() == parts1[i].grid_bits()
        &&& owner1.contains_key(c)
        &&& owner1[c] == i
        &&& !pending1.contains(c)
    } by {
        if i != id {
            assert(parts0[i].cells().contains(c));
            assert(!pending0.contains(c));
        }
    }
    assert forall|c: CellId| #[trigger] owner1.contains_key(c) && !pending1.contains(c) implies
        parts1.contains_key(owner1[c]) && parts1[owner1[c]].cells().contains(c) by {
        if !set.contains(c) {
            assert(owner0.contains_key(c) && !pending0.contains(c));
            let i = owner0[c];
            assert(parts0.contains_key(i) && parts0[i].cells().contains(c));
            if i == id {
                assert(parts0[id].cells().contains(c));
            }
        }
    }
}

/// The cells of the sets of a list.
pub open spec fn union_of(sets: Seq<CellHashSet>) -> Set<CellId> {
    Set::new(|c: CellId| exists|i: int| 0 <= i < sets.len() && cell_set(#[trigger] sets[i]).contains(c))
}

/// Whether `pieces` divides `all` into finite, non-empty sets that share no cell.
pub open spec fn pieces_ok(pieces: Seq<CellHashSet>, all: Set<CellId>) -> bool {
    &&& forall|i: int| 0 <= i < pieces.len() ==> cell_set(#[trigger] pieces[i]).finite()
        && cell_set(pieces[i]) != Set::<CellId>::empty()
    &&& forall|i: int, j: int| 0 <= i < pieces.len() && 0 <= j < pieces.len() && i != j ==>
        cell_set(#[trigger] pieces[i]).disjoint(cell_set(#[trigger] pieces[j]))
    &&& union_of(pieces) == all
}

/// A division of a set with a cell has at least one piece.
proof fn lemma_pieces_nonempty(pieces: Seq<CellHashSet>, all: Set<CellId>, c: CellId)
    requires
        pieces_ok(pieces, all),
        all.contains(c),
    ensures
        pieces.len() >= 1,
{
    assert(union_of(pieces).contains(c));
}

/// A division of a set into pieces has no piece twice.
proof fn lemma_pieces_distinct(pieces: Seq<CellHashSet>, all: Set<CellId>)
    requires
        pieces_ok(pieces, all),
    ensures
        pieces.no_duplicates(),
{
    assert forall|i: int, j: int| 0 <= i < pieces.len() && 0 <= j < pieces.len() && i != j implies pieces[i] != pieces[j] by {
        let s = cell_set(pieces[i]);
        assert(s.contains(s.choose())) by {
            if !exists|a: CellId| s.contains(a) {
                assert(s =~= Set::<CellId>::empty());
            }
        }
        assert(s.disjoint(cell_set(pieces[j])));
    }
}

/// Reordering the pieces of a division keeps it a division of the same set.
proof fn lemma_pieces_permuted(pieces: Seq<CellHashSet>, sorted: Seq<CellHashSet>, all: Set<CellId>)
    requires
        pieces_ok(pieces, all),
        sorted.to_multiset() == pieces.to_multiset(),
    ensures
        pieces_ok(sorted, all),
        forall|k: int| 0 <= k < sorted.len() ==> #[trigger] pieces.contains(sorted[k]),
        forall|i: int| 0 <= i < pieces.len() ==> #[trigger] sorted.contains(pieces[i]),
{
    broadcast use vstd::seq_lib::group_to_multiset_ensures;
    pieces.to_multiset_ensures();
    sorted.to_multiset_ensures();
    lemma_pieces_distinct(pieces, all);
    pieces.lemma_multiset_has_no_duplicates();
    sorted.lemma_multiset_has_no_duplicates_conv();
    assert forall|k: int| 0 <= k < sorted.len() implies #[trigger] pieces.contains(sorted[k]) by {
        assert(sorted.contains(sorted[k]));
        assert(sorted.to_multiset().count(sorted[k]) > 0);
    }
    assert forall|i: int| 0 <= i < pieces.len() implies #[trigger] sorted.contains(pieces[i]) by {
        assert(pieces.contains(pieces[i]));
        assert(pieces.to_multiset().count(pieces[i]) > 0);
    }
    assert forall|i: int| 0 <= i < sorted.len() implies cell_set(#[trigger] sorted[i]).finite()
        && cell_set(sorted[i]) != Set::<CellId>::empty() by {
        assert(pieces.contains(sorted[i]));
        let a = choose|a: int| 0 <= a < pieces.len() && pieces[a] == sorted[i];
    }
    assert forall|i: int, j: int| 0 <= i < sorted.len() && 0 <= j < sorted.len() && i != j implies
        cell_set(#[trigger] sorted[i]).disjoint(cell_set(#[trigger] sorted[j])) by {
        assert(pieces.contains(sorted[i]) && pieces.contains(sorted[j]));
        let a = choose|a: int| 0 <= a < pieces.len() && pieces[a] == sorted[i];
        let b = choose|b: int| 0 <= b < pieces.len() && pieces[b] == sorted[j];
        assert(sorted[i] != sorted[j]);
    }
    assert forall|c: CellId| union_of(sorted).contains(c) <==> union_of(pieces).contains(c) by {
        if union_of(sorted).contains(c) {
            let k = choose|k: int| 0 <= k < sorted.len() && cell_set(#[trigger] sorted[k]).contains(c);
            assert(pieces.contains(sorted[k]));
            let a = choose|a: int| 0 <= a < pieces.len() && pieces[a] == sorted[k];
            assert(cell_set(pieces[a]).contains(c));
        }
        if union_of(pieces).contains(c) {
            let a = choose|a: int| 0 <= a < pieces.len() && cell_set(#[trigger] pieces[a]).contains(c);
            assert(sorted.contains(pieces[a]));
            let k = choose|k: int| 0 <= k < sorted.len() && sorted[k] == pieces[a];
            assert(cell_set(sorted[k]).contains(c));
        }
    }
    assert(union_of(sorted) =~= all);
}

/// Setting the last piece of a division aside leaves a division of the rest.
proof fn lemma_pieces_split_last(pieces: Seq<CellHashSet>, all: Set<CellId>)
    requires
        pieces_ok(pieces, all),
        pieces.len() >= 1,
    ensures
        pieces_ok(pieces.drop_last(), all.difference(cell_set(pieces.last()))),
        union_of(pieces.drop_last()) == all.difference(cell_set(pieces.last())),
        cell_set(pieces.last()).subset_of(all),
{
    let r = pieces.drop_last();
    let l = pieces.last();
    assert forall|c: CellId| union_of(r).contains(c) <==> all.difference(cell_set(l)).contains(c) by {
        if union_of(r).contains(c) {
            let k = choose|k: int| 0 <= k < r.len() && cell_set(#[trigger] r[k]).contains(c);
            assert(r[k] == pieces[k]);
            assert(cell_set(pieces[k]).disjoint(cell_set(pieces[pieces.len() - 1])));
            assert(union_of(pieces).contains(c));
        }
        if all.difference(cell_set(l)).contains(c) {
            assert(union_of(pieces).contains(c));
            let k = choose|k: int| 0 <= k < pieces.len() && cell_set(#[trigger] pieces[k]).contains(c);
            assert(k != pieces.len() - 1);
            assert(r[k] == pieces[k]);
        }
    }
    assert(union_of(r) =~= all.difference(cell_set(l)));
    assert forall|c: CellId| cell_set(l).contains(c) implies all.contains(c) by {
        assert(cell_set(pieces[pieces.len() - 1]).contains(c));
    }
    assert forall|i: int, j: int| 0 <= i < r.len() && 0 <= j < r.len() && i != j implies
        cell_set(#[trigger] r[i]).disjoint(cell_set(#[trigger] r[j])) by {
        assert(r[i] == pieces[i] && r[j] == pieces[j]);
    }
}

/// Setting the first piece of a division aside leaves a division of the rest.
proof fn lemma_pieces_split_first(pieces: Seq<CellHashSet>)
    requires
        pieces_ok(pieces, union_of(pieces)),
        pieces.len() >= 1,
    ensures
        pieces_ok(pieces.drop_first(), union_of(pieces.drop_first())),
        union_of(pieces.drop_first()) == union_of(pieces).difference(cell_set(pieces[0])),
        cell_set(pieces[0]).subset_of(union_of(pieces)),
        forall|c: CellId| #[trigger] union_of(pieces.drop_first()).contains(c) ==> union_of(pieces).contains(c),
{
    let r = pieces.drop_first();
    assert forall|c: CellId| union_of(r).contains(c) <==> union_of(pieces).difference(cell_set(pieces[0])).contains(c) by {
        if union_of(r).contains(c) {
            let k = choose|k: int| 0 <= k < r.len() && cell_set(#[trigger] r[k]).contains(c);
            assert(r[k] == pieces[k + 1]);
            assert(cell_set(pieces[k + 1]).disjoint(cell_set(pieces[0])));
            assert(union_of(pieces).contains(c));
        }
        if union_of(pieces).difference(cell_set(pieces[0])).contains(c) {
            let k = choose|k: int| 0 <= k < pieces.len() && cell_set(#[trigger] pieces[k]).contains(c);
            assert(k != 0);
            assert(r[k - 1] == pieces[k]);
        }
    }
    assert(union_of(r) =~= union_of(pieces).difference(cell_set(pieces[0])));
    assert forall|c: CellId| cell_set(pieces[0]).contains(c) implies union_of(pieces).contains(c) by {
    }
    assert forall|i: int, j: int| 0 <= i < r.len() && 0 <= j < r.len() && i != j implies
        cell_set(#[trigger] r[i]).disjoint(cell_set(#[trigger] r[j])) by {
        assert(r[i] == pieces[i + 1] && r[j] == pieces[j + 1]);
    }
    assert forall|i: int| 0 <= i < r.len() implies cell_set(#[trigger] r[i]).finite()
        && cell_set(r[i]) != Set::<CellId>::empty() by {
        assert(r[i] == pieces[i + 1]);
    }
}

/// Taking a partition out of a well-formed lookup leaves its cells pending.
proof fn lemma_wf_take_out(parts: Map<PartitionId, Partition>, owner: Map<CellId, PartitionId>, next: u64, pid: PartitionId)
    requires
        lookup_wf(parts, owner, next),
        parts.contains_key(pid),
    ensures
        lookup_wf_pending(parts.remove(pid), owner, next, parts[pid].cells()),
        forall|c: CellId| #[trigger] parts[pid].cells().contains(c) ==> c.wf() && c.grid_bits() == parts[pid].grid_bits(),
{
    let p = parts.remove(pid);
    let pending = parts[pid].cells();
    assert forall|id: PartitionId, c: CellId| p.contains_key(id) && #[trigger] p[id].cells().contains(c) implies
        !pending.contains(c) by {
        assert(parts[id].cells().contains(c));
        if pending.contains(c) {
            assert(parts[pid].cells().contains(c));
        }
    }
    assert forall|c: CellId| #[trigger] owner.contains_key(c) && !pending.contains(c) implies
        p.contains_key(owner[c]) && p[owner[c]].cells().contains(c) by {
        assert(parts.contains_key(owner[c]) && parts[owner[c]].cells().contains(c));
    }
    assert forall|c: CellId| pending.contains(c) implies owner.contains_key(c) by {
        assert(parts[pid].cells().contains(c));
    }
}

/// A lookup with no pending cell is well formed.
proof fn lemma_wf_from_pending(parts: Map<PartitionId, Partition>, owner: Map<CellId, PartitionId>, next: u64)
    requires
        lookup_wf_pending(parts, owner, next, Set::<CellId>::empty()),
    ensures
        lookup_wf(parts, owner, next),
{
    assert forall|c: CellId| #[trigger] owner.contains_key(c) implies
        parts.contains_key(owner[c]) && parts[owner[c]].cells().contains(c) by {
        assert(!Set::<CellId>::empty().contains(c));
    }
}

/// The ordered pieces placed by a split are the pieces given, and the one kept under the old
/// identifier is as large as any.
proof fn lemma_pieces_permuted_back(
    pieces: Seq<CellHashSet>,
    sorted0: Seq<CellHashSet>,
    all: Set<CellId>,
    parts: Map<PartitionId, Partition>,
    pid: PartitionId,
    parts0: Map<PartitionId, Partition>,
)
    requires
        sorted0.to_multiset() == pieces.to_multiset(),
        pieces_ok(pieces, all),
        sorted0.len() >= 1,
        forall|i: int, j: int| 0 <= i <= j < sorted0.len() ==> cell_set(#[trigger] sorted0[i]).len() <= cell_set(#[trigger] sorted0[j]).len(),
        parts.contains_key(pid),
        parts[pid].cells() == cell_set(sorted0.last()),
    ensures
        forall|k: int| 0 <= k < sorted0.len() ==> #[trigger] pieces.contains(sorted0[k]),
        forall|i: int| 0 <= i < pieces.len() ==> cell_set(#[trigger] pieces[i]).len() <= parts[pid].cells().len(),
{
    lemma_pieces_permuted(pieces, sorted0, all);
    assert forall|i: int| 0 <= i < pieces.len() implies cell_set(#[trigger] pieces[i]).len() <= parts[pid].cells().len() by {
        assert(sorted0.contains(pieces[i]));
        let k = choose|k: int| 0 <= k < sorted0.len() && sorted0[k] == pieces[i];
        assert(cell_set(sorted0[k]).len() <= cell_set(sorted0[sorted0.len() - 1]).len());
    }
}

/// A division of a finite set has at most as many pieces as the set has cells.
proof fn lemma_pieces_count(pieces: Seq<CellHashSet>, all: Set<CellId>)
    requires
        pieces_ok(pieces, all),
        all.finite(),
    ensures
        pieces.len() <= all.len(),
    decreases pieces.len(),
{
    if pieces.len() > 0 {
        assert(pieces_ok(pieces, union_of(pieces)));
        lemma_pieces_split_first(pieces);
        let rest = pieces.drop_first();
        let first = cell_set(pieces[0]);
        assert(union_of(rest) == all.difference(first));
        lemma_pieces_count(rest, all.difference(first));
        let c = first.choose();
        assert(first.contains(c)) by {
            if !exists|a: CellId| first.contains(a) {
                assert(first =~= Set::<CellId>::empty());
            }
        }
        assert(all.difference(first).subset_of(all.remove(c)));
        vstd::set_lib::lemma_len_subset(all.difference(first), all.remove(c));
    }
}

/// The cells reachable from a remaining cell of a component, after some of its cells became
/// empty, are remaining cells of that component, and form a component.
proof fn lemma_reach_in_rest(
    k: Set<CellId>,
    before: Set<CellId>,
    removed: Set<CellId>,
    after: Set<CellId>,
    s: CellId,
)
    requires
        is_component(before, k),
        after.finite(),
        forall|c: CellId| #[trigger] after.contains(c) <==> before.contains(c) && !removed.contains(c),
        k.contains(s),
        !removed.contains(s),
    ensures
        reach_set(after, s).subset_of(k.difference(removed)),
        reach_set(after, s).finite(),
        is_component(after, reach_set(after, s)),
        reach_set(after, s).contains(s),
{
    assert(after.subset_of(before));
    assert(after.contains(s));
    lemma_reach_set_component(after, s);
    assert forall|y: CellId| reach_set(after, s).contains(y) implies k.difference(removed).contains(y) by {
        lemma_reachable_mono(after, before, s, y);
        lemma_closed_contains_reachable(before, k, s, y);
        lemma_reachable_ends(after, s, y);
    }
    vstd::set_lib::lemma_set_subset_finite(after, reach_set(after, s));
}

/// A remaining cell of a component that lost cells reaches a candidate, so it is in the group of
/// that candidate.
proof fn lemma_rest_covered(
    k: Set<CellId>,
    before: Set<CellId>,
    removed: Set<CellId>,
    after: Set<CellId>,
    cand: Set<CellId>,
    pieces: Seq<CellHashSet>,
    seeds: Seq<CellId>,
    y: CellId,
    r0: CellId,
)
    requires
        is_component(before, k),
        forall|c: CellId| #[trigger] after.contains(c) <==> before.contains(c) && !removed.contains(c),
        k.contains(r0),
        removed.contains(r0),
        k.contains(y),
        !removed.contains(y),
        forall|d: CellId, r: CellId| k.contains(d) && !removed.contains(d) && k.contains(r) && removed.contains(r)
            && #[trigger] touching(d, r) ==> cand.contains(d),
        split_progress(after, cand, Set::<CellId>::empty(), pieces, seeds),
    ensures
        union_of(pieces).contains(y),
{
    lemma_component_boundary(k, before, removed, after, y, r0);
    let (d, r) = choose|d: CellId, r: CellId| #![trigger touching(d, r)]
        reachable(after, y, d) && k.contains(d) && !removed.contains(d) && k.contains(r) && removed.contains(r)
        && touching(d, r);
    assert(cand.contains(d));
    assert(!Set::<CellId>::empty().contains(d));
    let i = choose|i: int| 0 <= i < pieces.len() && cell_set(#[trigger] pieces[i]).contains(d);
    let s = seeds[i];
    assert(cand.contains(seeds[i]) && cell_set(pieces[i]) == reach_set(after, s));
    assert(reachable(after, s, d));
    lemma_reachable_symmetric(after, y, d);
    lemma_reachable_trans(after, s, d, y);
    assert(cell_set(pieces[i]).contains(y));
}

/// The groups found for a partition that lost cells, each the cells reachable from one of the
/// partition's remaining cells that touch a removed cell, divide the rest of the partition into
/// components.
#[verifier::rlimit(60)]
proof fn lemma_split_pieces(
    k: Set<CellId>,
    before: Set<CellId>,
    removed: Set<CellId>,
    after: Set<CellId>,
    cand: Set<CellId>,
    pieces: Seq<CellHashSet>,
)
    requires
        is_component(before, k),
        after.finite(),
        forall|c: CellId| #[trigger] after.contains(c) <==> before.contains(c) && !removed.contains(c),
        removed.subset_of(before),
        cand.subset_of(k.difference(removed)),
        cand != Set::<CellId>::empty(),
        forall|c: CellId| #[trigger] cand.contains(c) ==> exists|r: CellId| removed.contains(r) && #[trigger] touching(r, c),
        forall|d: CellId, r: CellId| k.contains(d) && !removed.contains(d) && k.contains(r) && removed.contains(r)
            && #[trigger] touching(d, r) ==> cand.contains(d),
        split_found(after, cand, pieces),
    ensures
        pieces_ok(pieces, k.difference(removed)),
        forall|i: int| 0 <= i < pieces.len() ==> is_component(after, cell_set(#[trigger] pieces[i])),
{
    let rest = k.difference(removed);
    let seeds = choose|seeds: Seq<CellId>| #[trigger] split_progress(after, cand, Set::<CellId>::empty(), pieces, seeds);
    assert forall|i: int| 0 <= i < pieces.len() implies is_component(after, cell_set(#[trigger] pieces[i]))
        && cell_set(pieces[i]).subset_of(rest) && cell_set(pieces[i]).finite()
        && cell_set(pieces[i]) != Set::<CellId>::empty() by {
        let s = seeds[i];
        assert(cand.contains(seeds[i]) && cell_set(pieces[i]) == reach_set(after, s));
        assert(rest.contains(s));
        lemma_reach_in_rest(k, before, removed, after, s);
    }
    let a = cand.choose();
    assert(cand.contains(a)) by {
        if !exists|x: CellId| cand.contains(x) {
            assert(cand =~= Set::<CellId>::empty());
        }
    }
    let r0 = choose|r: CellId| removed.contains(r) && #[trigger] touching(r, a);
    lemma_neighbors_symmetric(id_key(r0), id_key(a));
    assert(touching(a, r0));
    assert(k.contains(r0));
    assert forall|y: CellId| rest.contains(y) implies union_of(pieces).contains(y) by {
        lemma_rest_covered(k, before, removed, after, cand, pieces, seeds, y, r0);
    }
    assert forall|y: CellId| union_of(pieces).contains(y) implies rest.contains(y) by {
        let i = choose|i: int| 0 <= i < pieces.len() && cell_set(#[trigger] pieces[i]).contains(y);
        assert(cell_set(pieces[i]).subset_of(rest));
    }
    assert(union_of(pieces) =~= rest);
}

/// The rest of a component that lost cells, whose remaining cells touching the removed ones are
/// all among `cand`, which is empty or connected to one of its cells, is itself a component.
proof fn lemma_unsplit(
    k: Set<CellId>,
    before: Set<CellId>,
    removed: Set<CellId>,
    after: Set<CellId>,
    cand: Set<CellId>,
)
    requires
        is_component(before, k),
        forall|c: CellId| #[trigger] after.contains(c) <==> before.contains(c) && !removed.contains(c),
        k.difference(removed) != Set::<CellId>::empty(),
        cand.subset_of(k.difference(removed)),
        cand == Set::<CellId>::empty() || connected_to_one(after, cand),
        forall|d: CellId, r: CellId| k.contains(d) && !removed.contains(d) && k.contains(r) && removed.contains(r)
            && #[trigger] touching(d, r) ==> cand.contains(d),
    ensures
        is_component(after, k.difference(removed)),
{
    let rest = k.difference(removed);
    if cand == Set::<CellId>::empty() {
        let x0 = rest.choose();
        assert(rest.contains(x0)) by {
            if !exists|x: CellId| rest.contains(x) {
                assert(rest =~= Set::<CellId>::empty());
            }
        }
        lemma_component_survives(k, before, removed, after, x0);
    } else {
        let x0 = choose|x0: CellId| #[trigger] cand.contains(x0) && forall|c: CellId| cand.contains(c) ==> reachable(after, x0, c);
        lemma_component_survives(k, before, removed, after, x0);
    }
}

/// Orders sets of cells by their number of cells, smallest first.
fn sort_by_len(sets: Vec<CellHashSet>) -> (r: Vec<CellHashSet>)
    ensures
        r@.to_multiset() == sets@.to_multiset(),
        forall|i: int, j: int| 0 <= i <= j < r@.len() ==> cell_set(#[trigger] r@[i]).len() <= cell_set(#[trigger] r@[j]).len(),
{
    let mut rest = sets;
    let mut sorted: Vec<CellHashSet> = Vec::new();
    proof {
        sorted@.to_multiset_ensures();
        assert(rest@.to_multiset().add(sorted@.to_multiset()) =~= sets@.to_multiset());
    }
    while rest.len() > 0
        invariant
            rest@.to_multiset().add(sorted@.to_multiset()) == sets@.to_multiset(),
            forall|i: int, j: int| 0 <= i <= j < sorted@.len() ==> cell_set(#[trigger] sorted@[i]).len() <= cell_set(#[trigger] sorted@[j]).len(),
            forall|i: int, j: int| 0 <= i < sorted@.len() && 0 <= j < rest@.len() ==> cell_set(#[trigger] sorted@[i]).len() <= cell_set(#[trigger] rest@[j]).len(),
        decreases rest@.len(),
    {
        let mut best: usize = 0;
        let mut best_len: usize = cell_set_len(&rest[0]);
        let mut k: usize = 1;
        while k < rest.len()
            invariant
                1 <= k <= rest@.len(),
                best < k,
                best_len == cell_set(rest@[best as int]).len(),
                forall|j: int| 0 <= j < k ==> best_len <= cell_set(#[trigger] rest@[j]).len(),
            decreases rest@.len() - k,
        {
            let n = cell_set_len(&rest[k]);
            if n < best_len {
                best = k;
                best_len = n;
            }
            k += 1;
        }
        let ghost r0 = rest@;
        let ghost s0 = sorted@;
        let x = rest.remove(best);
        sorted.push(x);
        proof {
            assert(rest@ == r0.remove(best as int));
            assert(sorted@ == s0.push(x));
            r0.to_multiset_ensures();
            s0.to_multiset_ensures();
            assert(r0[best as int] == x);
            assert(r0.contains(x));
            assert(r0.to_multiset().count(x) > 0);
            assert(rest@.to_multiset() == r0.to_multiset().remove(x));
            assert(sorted@.to_multiset() == s0.to_multiset().insert(x));
            assert(rest@.to_multiset().add(sorted@.to_multiset()) =~= r0.to_multiset().add(s0.to_multiset()));
            assert forall|i: int, j: int| 0 <= i < sorted@.len() && 0 <= j < rest@.len() implies
                cell_set(#[trigger] sorted@[i]).len() <= cell_set(#[trigger] rest@[j]).len() by {
                let j0 = if j < best { j } else { j + 1 };
                assert(rest@[j] == r0[j0]);
            }
        }
    }
    proof {
        rest@.to_multiset_ensures();
        assert(rest@.to_multiset() =~= vstd::multiset::Multiset::<CellHashSet>::empty());
        assert(sorted@.to_multiset() =~= sets@.to_multiset());
    }
    sorted
}

/// Whether, among the partitions `after` that hold cells of `region`, partition `pid` is one
/// of the largest and lies in `region`, and every other one lies in `region` too and has an
/// identifier from `next` up: the largest piece of a divided region keeps its identifier and
/// the other pieces get new ones.
pub open spec fn keeps_largest_piece(after: Map<PartitionId, Set<CellId>>, pid: PartitionId, region: Set<CellId>, next: u64) -> bool {
    &&& after.contains_key(pid)
    &&& after[pid].subset_of(region)
    &&& forall|id: PartitionId, c: CellId| #![trigger after[id].contains(c), region.contains(c)]
        after.contains_key(id) && after[id].contains(c) && region.contains(c) ==> {
            &&& id == pid || next <= id.bits()
            &&& after[id].subset_of(region)
            &&& after[id].len() <= after[pid].len()
        }
}

/// Whether no cell of `cells` touches a cell of `new_cells`.
pub open spec fn untouched_by_cells(cells: Set<CellId>, new_cells: Set<CellId>) -> bool {
    forall|n: CellId, c: CellId| #![trigger new_cells.contains(n), cells.contains(c)]
        new_cells.contains(n) && cells.contains(c) ==> !touching(n, c)
}

/// Whether no cell of `cells` touches a cell of `new_cells`, listed.
pub open spec fn untouched_by(cells: Set<CellId>, new_cells: Seq<CellId>) -> bool {
    forall|k: int, c: CellId| #![trigger touching(new_cells[k], c)] 0 <= k < new_cells.len() && cells.contains(c) ==> !touching(new_cells[k], c)
}

/// Whether every two cells of `s` reach each other among the occupied cells.
pub open spec fn all_connected(occupied: Set<CellId>, s: Set<CellId>) -> bool {
    forall|a: CellId, b: CellId| #![trigger s.contains(a), s.contains(b)] s.contains(a) && s.contains(b) ==> reachable(occupied, a, b)
}

/// Whether some cell of `s` reaches every cell of `s` among the occupied cells.
pub open spec fn connected_to_one(occupied: Set<CellId>, s: Set<CellId>) -> bool {
    exists|x0: CellId| #[trigger] s.contains(x0) && forall|c: CellId| s.contains(c) ==> reachable(occupied, x0, c)
}

/// Finds, for each partition with candidates, whether its candidates are still connected, and
/// the groups they fall into when they are not. Only partitions that split are listed.
fn find_splits(cells: &GridHashMap, candidates: &mut PartitionCellsMap) -> (r: Vec<(PartitionId, Vec<CellHashSet>)>)
    requires
        cells.well_formed(),
        forall|pid: PartitionId| #[trigger] partition_cells(*old(candidates)).contains_key(pid) ==>
            cell_set(partition_cells(*old(candidates))[pid]).subset_of(cells.occupied()),
    ensures
        forall|i: int, j: int| 0 <= i < j < r@.len() ==> r@[i].0 != r@[j].0,
        forall|i: int| 0 <= i < r@.len() ==> partition_cells(*old(candidates)).contains_key(#[trigger] r@[i].0)
            && split_found(cells.occupied(), cell_set(partition_cells(*old(candidates))[r@[i].0]), r@[i].1@)
            && (cell_set(partition_cells(*old(candidates))[r@[i].0]) != Set::<CellId>::empty()
                ==> !all_connected(cells.occupied(), cell_set(partition_cells(*old(candidates))[r@[i].0]))),
        forall|pid: PartitionId| #[trigger] partition_cells(*old(candidates)).contains_key(pid)
            && (forall|i: int| 0 <= i < r@.len() ==> r@[i].0 != pid) ==>
            connected_to_one(cells.occupied(), cell_set(partition_cells(*old(candidates))[pid])),
{
    let ghost cands = partition_cells(*candidates);
    let mut list = partition_cells_drain(candidates);
    let ghost list0 = list@;
    let mut results: Vec<(PartitionId, Vec<CellHashSet>)> = Vec::new();
    let ghost mut k: int = 0;
    proof {
        assert(list@ == list0.subrange(0, list0.len() as int));
    }
    while list.len() > 0
        invariant
            cells.well_formed(),
            forall|pid: PartitionId| #[trigger] cands.contains_key(pid) ==> cell_set(cands[pid]).subset_of(cells.occupied()),
            forall|i: int, j: int| 0 <= i < j < list0.len() ==> list0[i].0 != list0[j].0,
            forall|i: int| 0 <= i < list0.len() ==> cands.contains_key((#[trigger] list0[i]).0) && list0[i].1 == cands[list0[i].0],
            forall|p: PartitionId| #[trigger] cands.contains_key(p) ==> exists|i: int| 0 <= i < list0.len() && list0[i].0 == p,
            0 <= k <= list0.len(),
            list@ == list0.subrange(k, list0.len() as int),
            forall|i: int| 0 <= i < results@.len() ==> exists|q: int| 0 <= q < k && list0[q].0 == (#[trigger] results@[i]).0,
            forall|i: int, j: int| 0 <= i < j < results@.len() ==> results@[i].0 != results@[j].0,
            forall|i: int| 0 <= i < results@.len() ==> cands.contains_key(#[trigger] results@[i].0)
                && split_found(cells.occupied(), cell_set(cands[results@[i].0]), results@[i].1@)
                && (cell_set(cands[results@[i].0]) != Set::<CellId>::empty()
                    ==> !all_connected(cells.occupied(), cell_set(cands[results@[i].0]))),
            forall|q: int| 0 <= q < k && (forall|i: int| 0 <= i < results@.len() ==> results@[i].0 != (#[trigger] list0[q]).0) ==>
                connected_to_one(cells.occupied(), cell_set(cands[list0[q].0])),
        decreases list@.len(),
    {
        let (pid, set) = list.remove(0);
        let ghost results0 = results@;
        proof {
            assert(list0[k] == (pid, set));
            assert(cands.contains_key(list0[k].0));
            assert(cell_set(set) == cell_set(cands[pid]));
        }
        match split_partition(cells, set) {
            Some(pieces) => {
                results.push((pid, pieces));
                proof {
                    assert forall|i: int| 0 <= i < results@.len() implies exists|q: int| 0 <= q < k + 1 && list0[q].0 == (#[trigger] results@[i]).0 by {
                        if i < results0.len() {
                            assert(results@[i] == results0[i]);
                            let q = choose|q: int| 0 <= q < k && list0[q].0 == results0[i].0;
                        } else {
                            assert(list0[k].0 == results@[i].0);
                        }
                    }
                    assert forall|i: int, j: int| 0 <= i < j < results@.len() implies results@[i].0 != results@[j].0 by {
                        if j == results0.len() {
                            let q = choose|q: int| 0 <= q < k && list0[q].0 == results0[i].0;
                            assert(results@[i] == results0[i]);
                        } else {
                            assert(results@[i] == results0[i] && results@[j] == results0[j]);
                        }
                    }
                    assert forall|i: int| 0 <= i < results@.len() implies cands.contains_key(#[trigger] results@[i].0)
                        && split_found(cells.occupied(), cell_set(cands[results@[i].0]), results@[i].1@)
                        && (cell_set(cands[results@[i].0]) != Set::<CellId>::empty()
                            ==> !all_connected(cells.occupied(), cell_set(cands[results@[i].0]))) by {
                        if i < results0.len() {
                            assert(results@[i] == results0[i]);
                        }
                    }
                    assert forall|q: int| 0 <= q < k + 1 && (forall|i: int| 0 <= i < results@.len() ==> results@[i].0 != (#[trigger] list0[q]).0) implies
                        connected_to_one(cells.occupied(), cell_set(cands[list0[q].0])) by {
                        if q == k {
                            assert(results@[results0.len() as int].0 == list0[q].0);
                        } else {
                            assert forall|i: int| 0 <= i < results0.len() implies results0[i].0 != list0[q].0 by {
                                assert(results@[i] == results0[i]);
                            }
                        }
                    }
                }
            }
            None => {
                proof {
                    assert forall|i: int| 0 <= i < results@.len() implies exists|q: int| 0 <= q < k + 1 && list0[q].0 == (#[trigger] results@[i]).0 by {
                        let q = choose|q: int| 0 <= q < k && list0[q].0 == results@[i].0;
                    }
                    assert(connected_to_one(cells.occupied(), cell_set(set)));
                    assert forall|q: int| 0 <= q < k + 1 && (forall|i: int| 0 <= i < results@.len() ==> results@[i].0 != (#[trigger] list0[q]).0) implies
                        connected_to_one(cells.occupied(), cell_set(cands[list0[q].0])) by {
                        if q == k {
                            assert(cell_set(cands[list0[q].0]) == cell_set(set));
                        }
                    }
                }
            }
        }
        proof {
            k = k + 1;
            assert(list@ =~= list0.subrange(k, list0.len() as int));
        }
    }
    proof {
        assert forall|pid: PartitionId| #[trigger] cands.contains_key(pid)
            && (forall|i: int| 0 <= i < results@.len() ==> results@[i].0 != pid) implies
            connected_to_one(cells.occupied(), cell_set(cands[pid])) by {
            let q = choose|q: int| 0 <= q < list0.len() && list0[q].0 == pid;
            assert(forall|i: int| 0 <= i < results@.len() ==> results@[i].0 != list0[q].0);
        }
    }
    results
}

/// A resource for quickly finding connected groups of occupied grid cells in [`Partition`]s.
///
/// Partitions divide space into independent groups of cells. The lookup is kept up to date with
/// a [`GridHashMap`](crate::hash::map::GridHashMap) by [`PartitionLookup::update`]. Partitions
/// only deal with cells: to find the entities in a partition, look up each of its cells in the
/// map.
pub struct PartitionLookup {
    partitions: PartitionMap,
    pub(crate) reverse_map: CellPartitionMap,
    next_partition: u64,
}

impl PartitionLookup {
    /// The partitions, by identifier.
    pub closed spec fn parts(&self) -> Map<PartitionId, Partition> {
        partition_map(self.partitions)
    }

    /// The identifier of the partition of each cell.
    pub closed spec fn owner(&self) -> Map<CellId, PartitionId> {
        cell_owners(self.reverse_map)
    }

    /// The next identifier to hand out.
    pub closed spec fn next_id(&self) -> u64 {
        self.next_partition
    }

    /// The cells of each partition.
    pub open spec fn cells_of(&self) -> Map<PartitionId, Set<CellId>> {
        self.parts().map_values(|p: Partition| p.cells())
    }

    /// The lookup's internal invariants.
    pub closed spec fn wf(&self) -> bool {
        lookup_wf(self.parts(), self.owner(), self.next_id())
    }

    /// What a well-formed lookup guarantees: each partition is well formed, holds at least one
    /// cell, has exact bounds and lies in the grid of its cells; each cell is in at most one
    /// partition, whose identifier the reverse lookup gives.
    pub proof fn lemma_wf(&self)
        requires
            self.wf(),
        ensures
            forall|id: PartitionId| #[trigger] self.parts().contains_key(id) ==> {
                &&& self.parts()[id].wf()
                &&& self.parts()[id].bounds_exact()
                &&& id.bits() < self.next_id()
            },
            forall|id: PartitionId, c: CellId| self.parts().contains_key(id) && #[trigger] self.parts()[id].cells().contains(c) ==> {
                &&& c.grid_bits() == self.parts()[id].grid_bits()
                &&& self.owner().contains_key(c)
                &&& self.owner()[c] == id
            },
            forall|c: CellId| #[trigger] self.owner().contains_key(c) ==>
                self.parts().contains_key(self.owner()[c]) && self.parts()[self.owner()[c]].cells().contains(c),
    {
    }

    /// Creates an empty lookup.
    pub fn new() -> (r: Self)
        ensures
            r.wf(),
            r.parts().dom() == Set::<PartitionId>::empty(),
            r.owner().dom() == Set::<CellId>::empty(),
            r.next_id() == 0,
    {
        PartitionLookup { partitions: partitions_new(), reverse_map: owners_new(), next_partition: 0 }
    }

    /// The next identifier this lookup hands out; every identifier it handed out is smaller.
    pub fn next_identifier(&self) -> (r: u64)
        ensures
            r == self.next_id(),
    {
        self.next_partition
    }

    /// Returns the partition with identifier `id`, if it exists.
    pub fn resolve(&self, id: &PartitionId) -> (r: Option<&Partition>)
        ensures
            r is Some <==> self.parts().contains_key(*id),
            r matches Some(p) ==> *p == self.parts()[*id],
    {
        partitions_get(&self.partitions, id)
    }

    /// Returns the identifier of the partition that holds the cell `hash`, if any does.
    pub fn get(&self, hash: &CellId) -> (r: Option<&PartitionId>)
        ensures
            r is Some <==> self.owner().contains_key(*hash),
            r matches Some(id) ==> *id == self.owner()[*hash],
    {
        owners_get(&self.reverse_map, hash)
    }

    /// All partitions with their identifiers, in the map's iteration order.
    pub fn iter(&self) -> (r: Vec<(PartitionId, &Partition)>)
        ensures
            forall|i: int, j: int| 0 <= i < j < r@.len() ==> r@[i].0 != r@[j].0,
            forall|i: int| 0 <= i < r@.len() ==> self.parts().contains_key((#[trigger] r@[i]).0)
                && *r@[i].1 == self.parts()[r@[i].0],
            forall|k: PartitionId| #[trigger] self.parts().contains_key(k) ==> exists|i: int| 0 <= i < r@.len() && r@[i].0 == k,
    {
        partitions_iter(&self.partitions)
    }

    /// A copy of the partition of each cell.
    pub(crate) fn snapshot_owners(&self) -> (r: CellPartitionMap)
        ensures
            cell_owners(r) == self.owner(),
    {
        owners_clone(&self.reverse_map)
    }

    /// Returns the partition with identifier `partition`, if it exists.
    pub fn get_partition(&self, partition: &PartitionId) -> (r: Option<&Partition>)
        ensures
            r is Some <==> self.parts().contains_key(*partition),
            r matches Some(p) ==> *p == self.parts()[*partition],
    {
        partitions_get(&self.partitions, partition)
    }

    /// Makes `set` the partition `partition`, replacing any partition of that identifier and
    /// pointing each cell of `set` at it; an empty `set` removes the partition instead. Returns
    /// the partition that had this identifier.
    ///
    /// Cells of a replaced partition that `set` lacks still point at `partition` afterwards, until
    /// another insertion points them elsewhere.
    fn insert(&mut self, partition: PartitionId, set: CellHashSet) -> (r: Option<Partition>)
        requires
            cell_set(set).finite(),
        ensures
            r is Some <==> old(self).parts().contains_key(partition),
            r matches Some(p) ==> p == old(self).parts()[partition],
            final(self).next_id() == old(self).next_id(),
            cell_set(set) == Set::<CellId>::empty() ==> {
                &&& final(self).parts() == old(self).parts().remove(partition)
                &&& final(self).owner() == old(self).owner()
            },
            cell_set(set) != Set::<CellId>::empty() ==> {
                &&& final(self).parts().dom() == old(self).parts().dom().insert(partition)
                &&& forall|id: PartitionId| id != partition && #[trigger] old(self).parts().contains_key(id)
                    ==> final(self).parts()[id] == old(self).parts()[id]
                &&& final(self).parts()[partition].wf()
                &&& final(self).parts()[partition].cells() == cell_set(set)
                &&& final(self).parts()[partition].bounds_exact()
                &&& exists|c: CellId| #[trigger] cell_set(set).contains(c) && final(self).parts()[partition].grid_bits() == c.grid_bits()
                &&& forall|c: CellId| #[trigger] final(self).owner().contains_key(c) <==>
                    old(self).owner().contains_key(c) || cell_set(set).contains(c)
                &&& forall|c: CellId| #[trigger] final(self).owner().contains_key(c) ==>
                    final(self).owner()[c] == if cell_set(set).contains(c) { partition } else { old(self).owner()[c] }
            },
    {
        let hash = match cell_set_first(&set) {
            Some(h) => h,
            None => {
                return partitions_remove(&mut self.partitions, &partition);
            }
        };
        let mut min = hash.coord();
        let mut max = hash.coord();
        let all = cell_set_to_vec(&set);
        proof {
            lemma_bounds_single(hash);
            assert(all@.take(0).to_set() =~= Set::<CellId>::empty());
            assert(all@.take(0).to_set().insert(hash) =~= set![hash]);
        }
        let ghost owner0 = self.owner();
        let mut i: usize = 0;
        while i < all.len()
            invariant
                all@.no_duplicates(),
                all@.to_set() == cell_set(set),
                cell_set(set).contains(hash),
                0 <= i <= all@.len(),
                is_min_of(all@.take(i as int).to_set().insert(hash), min),
                is_max_of(all@.take(i as int).to_set().insert(hash), max),
                self.partitions == old(self).partitions,
                self.next_partition == old(self).next_partition,
                owner0 == old(self).owner(),
                forall|c: CellId| #[trigger] self.owner().contains_key(c) <==>
                    owner0.contains_key(c) || all@.take(i as int).contains(c),
                forall|c: CellId| #[trigger] self.owner().contains_key(c) ==>
                    self.owner()[c] == if all@.take(i as int).contains(c) { partition } else { owner0[c] },
            decreases all@.len() - i,
        {
            let c = all[i];
            let ghost seen = all@.take(i as int).to_set().insert(hash);
            let ghost prev = self.owner();
            owners_insert(&mut self.reverse_map, c, partition);
            proof {
                assert(self.owner() == prev.insert(c, partition));
                lemma_bounds_single(c);
                lemma_min_union(seen, min, set![c], c.cell());
                lemma_max_union(seen, max, set![c], c.cell());
                assert(all@.take(i as int + 1) == all@.take(i as int).push(c));
                all@.take(i as int).lemma_push_to_set_commute(c);
                assert(all@.take(i as int + 1).to_set().insert(hash) =~= seen.union(set![c]));
                assert forall|x: CellId| all@.take(i as int + 1).contains(x) <==> (all@.take(i as int).contains(x) || x == c) by {
                    assert(all@.take(i as int + 1) == all@.take(i as int).push(c));
                }
                assert forall|x: CellId| #[trigger] self.owner().contains_key(x) <==>
                    owner0.contains_key(x) || all@.take(i as int + 1).contains(x) by {
                    assert(all@.take(i as int + 1).contains(x) <==> (all@.take(i as int).contains(x) || x == c));
                }
                assert forall|x: CellId| #[trigger] self.owner().contains_key(x) implies
                    self.owner()[x] == if all@.take(i as int + 1).contains(x) { partition } else { owner0[x] } by {
                    assert(all@.take(i as int + 1).contains(x) <==> (all@.take(i as int).contains(x) || x == c));
                }
            }
            min = min.min(c.coord());
            max = max.max(c.coord());
            i += 1;
        }
        proof {
            assert(all@.take(all@.len() as int) == all@);
            assert(forall|x: CellId| #[trigger] self.owner().contains_key(x) <==>
                    owner0.contains_key(x) || all@.take(i as int).contains(x));
            assert(all@.to_set().insert(hash) =~= cell_set(set));
            assert forall|c: CellId| all@.contains(c) <==> cell_set(set).contains(c) by {
                assert(all@.to_set().contains(c) == all@.contains(c));
            }
        }
        // Storing the new partition leaves the owners of the cells as they are now.
        let ghost owners = self.owner();
        let p = Partition::new(hash.grid(), set, min, max);
        proof {
            assert(self.owner() == owners);
        }
        let r = partitions_insert(&mut self.partitions, partition, p);
        proof {
            assert(self.owner() == owners);
            self.parts()[partition].lemma_bounds_exact();
            assert(self.parts().dom() =~= old(self).parts().dom().insert(partition));
            assert(cell_set(set).contains(hash) && self.parts()[partition].grid_bits() == hash.grid_bits());
            assert(i == all@.len());
            assert(all@.take(i as int) == all@);
            assert forall|c: CellId| #[trigger] self.owner().contains_key(c) <==>
                old(self).owner().contains_key(c) || cell_set(set).contains(c) by {
                assert(all@.contains(c) <==> cell_set(set).contains(c));
                assert(self.owner().contains_key(c) <==> owner0.contains_key(c) || all@.take(i as int).contains(c));
            }
            assert forall|c: CellId| #[trigger] self.owner().contains_key(c) implies
                self.owner()[c] == if cell_set(set).contains(c) { partition } else { old(self).owner()[c] } by {
                assert(all@.contains(c) <==> cell_set(set).contains(c));
            }
        }
        r
    }

    /// Adds `cell` to the partition `partition` and points the cell at it; nothing changes if
    /// there is no such partition.
    fn push(&mut self, partition: &PartitionId, cell: &CellId)
        requires
            old(self).wf(),
            !old(self).owner().contains_key(*cell),
            cell.wf(),
            old(self).parts().contains_key(*partition) ==> cell.grid_bits() == old(self).parts()[*partition].grid_bits(),
        ensures
            final(self).wf(),
            final(self).next_id() == old(self).next_id(),
            !old(self).parts().contains_key(*partition) ==> final(self).parts() == old(self).parts()
                && final(self).owner() == old(self).owner(),
            old(self).parts().contains_key(*partition) ==> {
                &&& final(self).parts().dom() == old(self).parts().dom()
                &&& forall|id: PartitionId| id != *partition && #[trigger] old(self).parts().contains_key(id)
                    ==> final(self).parts()[id] == old(self).parts()[id]
                &&& final(self).owner() == old(self).owner().insert(*cell, *partition)
                &&& final(self).parts()[*partition].cells() == old(self).parts()[*partition].cells().insert(*cell)
                &&& final(self).parts()[*partition].grid_bits() == old(self).parts()[*partition].grid_bits()
            },
    {
        match partitions_remove(&mut self.partitions, partition) {
            Some(mut p) => {
                p.insert(*cell);
                partitions_insert(&mut self.partitions, *partition, p);
                owners_insert(&mut self.reverse_map, *cell, *partition);
                proof {
                    assert(self.parts() =~= old(self).parts().insert(*partition, p));
                    let parts = self.parts();
                    let owner = self.owner();
                    assert forall|id: PartitionId, c: CellId| parts.contains_key(id) && #[trigger] parts[id].cells().contains(c) implies {
                        &&& c.wf()
                        &&& c.grid_bits() == parts[id].grid_bits()
                        &&& owner.contains_key(c)
                        &&& owner[c] == id
                    } by {
                        if id == *partition && c != *cell {
                            assert(old(self).parts()[id].cells().contains(c));
                        }
                        if id != *partition && c == *cell {
                            assert(old(self).parts()[id].cells().contains(c));
                        }
                    }
                    assert forall|c: CellId| #[trigger] owner.contains_key(c) implies
                        parts.contains_key(owner[c]) && parts[owner[c]].cells().contains(c) by {
                        if c != *cell {
                            assert(old(self).owner().contains_key(c));
                        }
                    }
                    assert(owner.dom() =~= old(self).owner().dom().insert(*cell));
                }
            }
            None => {
                proof {
                    assert(self.parts() =~= old(self).parts());
                }
            }
        }
    }

    /// Removes `cell` from its partition, and removes that partition once it holds no cell.
    fn remove(&mut self, cell: &CellId)
        requires
            old(self).wf(),
        ensures
            final(self).wf(),
            final(self).next_id() == old(self).next_id(),
            final(self).owner() == old(self).owner().remove(*cell),
            forall|id: PartitionId| #[trigger] final(self).parts().contains_key(id) <==>
                old(self).parts().contains_key(id) && old(self).parts()[id].cells().remove(*cell) != Set::<CellId>::empty(),
            forall|id: PartitionId| #[trigger] final(self).parts().contains_key(id) ==> {
                &&& final(self).parts()[id].cells() == old(self).parts()[id].cells().remove(*cell)
                &&& final(self).parts()[id].grid_bits() == old(self).parts()[id].grid_bits()
            },
    {
        let old_id = match owners_remove(&mut self.reverse_map, cell) {
            Some(id) => id,
            None => {
                proof {
                    assert(self.owner() =~= old(self).owner().remove(*cell));
                    assert forall|id: PartitionId| #[trigger] old(self).parts().contains_key(id) implies
                        old(self).parts()[id].cells().remove(*cell) == old(self).parts()[id].cells()
                        && old(self).parts()[id].cells() != Set::<CellId>::empty() by {
                        assert(old(self).parts()[id].cells().remove(*cell) =~= old(self).parts()[id].cells());
                        old(self).parts()[id].lemma_bounds_nonempty();
                    }
                }
                return;
            },
        };
        let ghost parts0 = self.parts();
        let mut empty = false;
        match partitions_remove(&mut self.partitions, &old_id) {
            Some(mut partition) => {
                if partition.remove(cell) && partition.is_empty() {
                    empty = true;
                }
                partitions_insert(&mut self.partitions, old_id, partition);
                proof {
                    assert(self.parts() =~= parts0.insert(old_id, partition));
                }
            }
            None => {}
        }
        if empty {
            partitions_remove(&mut self.partitions, &old_id);
        }
        proof {
            let parts = self.parts();
            let owner = self.owner();
            assert(parts0.contains_key(old_id));
            assert forall|id: PartitionId| #[trigger] parts0.contains_key(id) && id != old_id implies
                !parts0[id].cells().contains(*cell) by {
            }
            assert forall|id: PartitionId| #[trigger] parts.contains_key(id) <==>
                parts0.contains_key(id) && parts0[id].cells().remove(*cell) != Set::<CellId>::empty() by {
                if id != old_id && parts0.contains_key(id) {
                    assert(parts0[id].cells().remove(*cell) =~= parts0[id].cells());
                    parts0[id].lemma_bounds_nonempty();
                }
            }
            assert forall|id: PartitionId| #[trigger] parts.contains_key(id) implies {
                &&& parts[id].cells() == parts0[id].cells().remove(*cell)
                &&& parts[id].grid_bits() == parts0[id].grid_bits()
            } by {
                if id != old_id {
                    assert(parts0[id].cells().remove(*cell) =~= parts0[id].cells());
                }
            }
            assert forall|id: PartitionId| #[trigger] parts.contains_key(id) implies {
                &&& parts[id].wf()
                &&& parts[id].bounds_exact()
                &&& id.bits() < self.next_partition
            } by {
            }
            assert forall|id: PartitionId, c: CellId| parts.contains_key(id) && #[trigger] parts[id].cells().contains(c) implies {
                &&& c.wf()
                &&& c.grid_bits() == parts[id].grid_bits()
                &&& owner.contains_key(c)
                &&& owner[c] == id
            } by {
                assert(parts0[id].cells().contains(c));
            }
            assert forall|c: CellId| #[trigger] owner.contains_key(c) implies
                parts.contains_key(owner[c]) && parts[owner[c]].cells().contains(c) by {
                let id = owner[c];
                assert(old(self).owner().contains_key(c));
                assert(parts0[id].cells().contains(c));
                assert(parts0[id].cells().remove(*cell).contains(c));
            }
        }
    }

    /// Moves the cells of `partition`, taken out of the map under the identifier `x`, into the
    /// partition `largest`, pointing each of them at it.
    fn absorb(&mut self, largest: PartitionId, Ghost(x): Ghost<PartitionId>, partition: Partition)
        requires
            lookup_wf(old(self).parts().insert(x, partition), old(self).owner(), old(self).next_id()),
            !old(self).parts().contains_key(x),
            old(self).parts().contains_key(largest),
            old(self).parts()[largest].grid_bits() == partition.grid_bits(),
        ensures
            final(self).wf(),
            final(self).next_id() == old(self).next_id(),
            final(self).parts().dom() == old(self).parts().dom(),
            forall|i: PartitionId| i != largest && #[trigger] old(self).parts().contains_key(i)
                ==> final(self).parts()[i] == old(self).parts()[i],
            final(self).parts()[largest].cells() == old(self).parts()[largest].cells().union(partition.cells()),
            final(self).parts()[largest].grid_bits() == old(self).parts()[largest].grid_bits(),
    {
        let ghost full = old(self).parts().insert(x, partition);
        let ghost owner0 = self.owner();
        proof {
            assert(full.contains_key(x) && full[x] == partition);
            assert forall|c: CellId| partition.cells().contains(c) implies owner0.contains_key(c) by {
                assert(full[x].cells().contains(c));
            }
        }
        let cells = partition.iter();
        let mut m: usize = 0;
        while m < cells.len()
            invariant
                cells@.to_set() == partition.cells(),
                forall|c: CellId| partition.cells().contains(c) ==> owner0.contains_key(c),
                0 <= m <= cells@.len(),
                self.partitions == old(self).partitions,
                self.next_partition == old(self).next_partition,
                owner0 == old(self).owner(),
                self.owner().dom() == owner0.dom(),
                forall|c: CellId| #[trigger] self.owner().contains_key(c) ==>
                    self.owner()[c] == if cells@.take(m as int).contains(c) { largest } else { owner0[c] },
            decreases cells@.len() - m,
        {
            let c = cells[m];
            let ghost prev = self.owner();
            proof {
                assert(cells@.to_set().contains(c));
            }
            owners_insert(&mut self.reverse_map, c, largest);
            proof {
                assert(self.owner() == prev.insert(c, largest));
                assert(self.owner().dom() =~= owner0.dom());
                assert forall|d: CellId| #[trigger] self.owner().contains_key(d) implies
                    self.owner()[d] == if cells@.take(m as int + 1).contains(d) { largest } else { owner0[d] } by {
                    assert(cells@.take(m as int + 1) == cells@.take(m as int).push(c));
                }
            }
            m += 1;
        }
        proof {
            assert(cells@.take(cells@.len() as int) == cells@);
            assert forall|c: CellId| #[trigger] self.owner().contains_key(c) implies
                self.owner()[c] == if partition.cells().contains(c) { largest } else { owner0[c] } by {
                assert(cells@.to_set().contains(c) == cells@.contains(c));
            }
        }
        let ghost owner1 = self.owner();
        let mut lp = match partitions_remove(&mut self.partitions, &largest) {
            Some(p) => p,
            None => {
                proof {
                    assert(false);
                }
                return;
            },
        };
        proof {
            assert(full.contains_key(largest) && full[largest] == lp);
            assert(lp.cells().disjoint(partition.cells())) by {
                assert forall|c: CellId| lp.cells().contains(c) implies !partition.cells().contains(c) by {
                    assert(full[largest].cells().contains(c));
                    if partition.cells().contains(c) {
                        assert(full[x].cells().contains(c));
                    }
                }
            }
        }
        lp.extend(partition);
        partitions_insert(&mut self.partitions, largest, lp);
        proof {
            assert(self.owner() == owner1);
            assert(self.parts() =~= full.remove(x).insert(largest, lp));
            lemma_absorbed(full, owner0, owner1, self.next_partition, x, largest, partition, lp, self.parts());
            assert(self.parts().dom() =~= old(self).parts().dom());
        }
    }

    /// Merges the partitions of the identifiers in `partitions` into the largest of them, the
    /// first such in the list.
    fn merge(&mut self, partitions: &Vec<PartitionId>)
        requires
            old(self).wf(),
            forall|i: int, j: int| 0 <= i < partitions@.len() && 0 <= j < partitions@.len()
                && old(self).parts().contains_key(partitions@[i]) && old(self).parts().contains_key(partitions@[j])
                ==> old(self).parts()[partitions@[i]].grid_bits() == old(self).parts()[partitions@[j]].grid_bits(),
        ensures
            final(self).wf(),
            final(self).next_id() == old(self).next_id(),
            ({
                let present = Set::new(|i: PartitionId| partitions@.contains(i) && old(self).parts().contains_key(i));
                &&& present == Set::<PartitionId>::empty() ==> final(self).parts() == old(self).parts()
                &&& present != Set::<PartitionId>::empty() ==> exists|keep: PartitionId| {
                    &&& #[trigger] present.contains(keep)
                    &&& final(self).cells_of() == merged_cells(old(self).cells_of(), present, keep)
                    &&& final(self).parts()[keep].grid_bits() == old(self).parts()[keep].grid_bits()
                    &&& forall|j: PartitionId| #[trigger] present.contains(j) ==>
                        old(self).parts()[j].cells().len() <= old(self).parts()[keep].cells().len()
                    &&& exists|i0: int| 0 <= i0 < partitions@.len() && partitions@[i0] == keep
                        && forall|j: int| 0 <= j < i0 && #[trigger] old(self).parts().contains_key(partitions@[j])
                            ==> old(self).parts()[partitions@[j]].cells().len() < old(self).parts()[keep].cells().len()
                }
            }),
    {
        let ghost present = Set::new(|i: PartitionId| partitions@.contains(i) && old(self).parts().contains_key(i));
        let count = owners_len(&self.reverse_map);
        let mut best: Option<(usize, PartitionId)> = None;
        let mut k: usize = 0;
        while k < partitions.len()
            invariant
                self.wf(),
                *self == *old(self),
                count == self.owner().len(),
                0 <= k <= partitions@.len(),
                best is None <==> forall|j: int| 0 <= j < k ==> !self.parts().contains_key(#[trigger] partitions@[j]),
                best matches Some(b) ==> {
                    &&& self.parts().contains_key(b.1)
                    &&& partitions@.take(k as int).contains(b.1)
                    &&& b.0 == self.parts()[b.1].cells().len()
                    &&& forall|j: int| 0 <= j < k && #[trigger] self.parts().contains_key(partitions@[j])
                        ==> self.parts()[partitions@[j]].cells().len() <= b.0
                    &&& exists|i0: int| 0 <= i0 < k && partitions@[i0] == b.1
                        && forall|j: int| 0 <= j < i0 && #[trigger] self.parts().contains_key(partitions@[j])
                            ==> self.parts()[partitions@[j]].cells().len() < b.0
                },
            decreases partitions@.len() - k,
        {
            let id = partitions[k];
            match partitions_get(&self.partitions, &id) {
                Some(p) => {
                    proof {
                        p.lemma_wf();
                        assert(p.cells().subset_of(self.owner().dom()));
                        vstd::set_lib::lemma_len_subset(p.cells(), self.owner().dom());
                    }
                    let n = p.num_cells();
                    best = match best {
                        None => Some((n, id)),
                        Some((bn, bid)) => if n > bn { Some((n, id)) } else { Some((bn, bid)) },
                    };
                }
                None => {}
            }
            proof {
                assert(partitions@.take(k as int + 1) == partitions@.take(k as int).push(id));
            }
            k += 1;
        }
        let largest = match best {
            Some((_, id)) => id,
            None => {
                proof {
                    assert(present =~= Set::<PartitionId>::empty()) by {
                        assert forall|i: PartitionId| !present.contains(i) by {
                            if partitions@.contains(i) {
                                let j = choose|j: int| 0 <= j < partitions@.len() && partitions@[j] == i;
                                assert(!self.parts().contains_key(partitions@[j]));
                            }
                        }
                    }
                }
                return;
            },
        };
        proof {
            assert(partitions@.take(partitions@.len() as int) == partitions@);
            assert(present.contains(largest));
        }
        let ghost first = choose|i0: int| 0 <= i0 < partitions@.len() && partitions@[i0] == largest
            && forall|j: int| 0 <= j < i0 && #[trigger] old(self).parts().contains_key(partitions@[j])
                ==> old(self).parts()[partitions@[j]].cells().len() < old(self).parts()[largest].cells().len();
        let ghost before = self.cells_of();
        let ghost parts0 = self.parts();
        let mut k: usize = 0;
        while k < partitions.len()
            invariant
                self.wf(),
                self.next_id() == old(self).next_id(),
                parts0 == old(self).parts(),
                before == old(self).cells_of(),
                parts0.contains_key(largest),
                present == Set::new(|i: PartitionId| partitions@.contains(i) && parts0.contains_key(i)),
                forall|i: int, j: int| 0 <= i < partitions@.len() && 0 <= j < partitions@.len()
                    && parts0.contains_key(partitions@[i]) && parts0.contains_key(partitions@[j])
                    ==> parts0[partitions@[i]].grid_bits() == parts0[partitions@[j]].grid_bits(),
                partitions@.contains(largest),
                0 <= k <= partitions@.len(),
                forall|i: PartitionId| #[trigger] self.parts().contains_key(i) <==>
                    parts0.contains_key(i) && (i == largest || !partitions@.take(k as int).contains(i)),
                forall|i: PartitionId| i != largest && #[trigger] self.parts().contains_key(i) ==> self.parts()[i] == parts0[i],
                self.parts()[largest].grid_bits() == parts0[largest].grid_bits(),
                forall|c: CellId| #[trigger] self.parts()[largest].cells().contains(c) <==>
                    exists|j: PartitionId| parts0.contains_key(j) && (j == largest || partitions@.take(k as int).contains(j))
                        && #[trigger] parts0[j].cells().contains(c),
            decreases partitions@.len() - k,
        {
            let id = partitions[k];
            let ghost parts1 = self.parts();
            proof {
                assert(partitions@.take(k as int + 1) == partitions@.take(k as int).push(id));
            }
            if id != largest {
                match partitions_remove(&mut self.partitions, &id) {
                    Some(partition) => {
                        proof {
                            assert(self.parts().insert(id, partition) =~= parts1);
                            assert(parts0.contains_key(id));
                            assert(partitions@[k as int] == id);
                            let jl = choose|jl: int| 0 <= jl < partitions@.len() && partitions@[jl] == largest;
                            assert(parts0[partitions@[k as int]].grid_bits() == parts0[partitions@[jl]].grid_bits());
                        }
                        self.absorb(largest, Ghost(id), partition);
                        proof {
                            assert forall|c: CellId| #[trigger] self.parts()[largest].cells().contains(c) <==>
                                exists|j: PartitionId| parts0.contains_key(j) && (j == largest || partitions@.take(k as int + 1).contains(j))
                                    && #[trigger] parts0[j].cells().contains(c) by {
                                if partition.cells().contains(c) {
                                    assert(parts0[id].cells().contains(c));
                                }
                                if exists|j: PartitionId| parts0.contains_key(j) && (j == largest || partitions@.take(k as int + 1).contains(j))
                                    && #[trigger] parts0[j].cells().contains(c) {
                                    let j = choose|j: PartitionId| parts0.contains_key(j) && (j == largest || partitions@.take(k as int + 1).contains(j))
                                        && #[trigger] parts0[j].cells().contains(c);
                                    if j != id && j != largest {
                                        assert(partitions@.take(k as int).contains(j));
                                    }
                                }
                            }
                        }
                    }
                    None => {
                        proof {
                            assert(self.parts() =~= parts1);
                            assert forall|c: CellId| #[trigger] self.parts()[largest].cells().contains(c) <==>
                                exists|j: PartitionId| parts0.contains_key(j) && (j == largest || partitions@.take(k as int + 1).contains(j))
                                    && #[trigger] parts0[j].cells().contains(c) by {
                                if exists|j: PartitionId| parts0.contains_key(j) && (j == largest || partitions@.take(k as int + 1).contains(j))
                                    && #[trigger] parts0[j].cells().contains(c) {
                                    let j = choose|j: PartitionId| parts0.contains_key(j) && (j == largest || partitions@.take(k as int + 1).contains(j))
                                        && #[trigger] parts0[j].cells().contains(c);
                                    if j == id {
                                        assert(!parts1.contains_key(id));
                                        assert(partitions@.take(k as int).contains(id));
                                    }
                                }
                            }
                        }
                    }
                }
            } else {
                proof {
                    assert forall|c: CellId| #[trigger] self.parts()[largest].cells().contains(c) <==>
                        exists|j: PartitionId| parts0.contains_key(j) && (j == largest || partitions@.take(k as int + 1).contains(j))
                            && #[trigger] parts0[j].cells().contains(c) by {
                        if exists|j: PartitionId| parts0.contains_key(j) && (j == largest || partitions@.take(k as int + 1).contains(j))
                            && #[trigger] parts0[j].cells().contains(c) {
                            let j = choose|j: PartitionId| parts0.contains_key(j) && (j == largest || partitions@.take(k as int + 1).contains(j))
                                && #[trigger] parts0[j].cells().contains(c);
                            if j != largest {
                                assert(partitions@.take(k as int).contains(j));
                            }
                        }
                    }
                }
            }
            k += 1;
        }
        proof {
            assert(partitions@.take(partitions@.len() as int) == partitions@);
            let m = merged_cells(before, present, largest);
            assert(self.cells_of().dom() =~= m.dom());
            assert forall|i: PartitionId| #[trigger] self.cells_of().contains_key(i) implies self.cells_of()[i] == m[i] by {
                if i == largest {
                    assert forall|c: CellId| self.cells_of()[i].contains(c) <==> m[i].contains(c) by {
                        if self.cells_of()[i].contains(c) {
                            let j = choose|j: PartitionId| parts0.contains_key(j) && (j == largest || partitions@.contains(j))
                                && #[trigger] parts0[j].cells().contains(c);
                            assert(present.contains(j) && before.contains_key(j) && before[j].contains(c));
                        }
                        if m[i].contains(c) {
                            let j = choose|j: PartitionId| present.contains(j) && before.contains_key(j) && #[trigger] before[j].contains(c);
                            assert(parts0[j].cells().contains(c));
                        }
                    }
                    assert(self.cells_of()[i] =~= m[i]);
                }
            }
            assert(self.cells_of() =~= m);
            assert forall|j: PartitionId| #[trigger] present.contains(j) implies
                old(self).parts()[j].cells().len() <= old(self).parts()[largest].cells().len() by {
                let jj = choose|jj: int| 0 <= jj < partitions@.len() && partitions@[jj] == j;
                assert(partitions@.take(partitions@.len() as int)[jj] == j);
            }
            assert(partitions@[first] == largest);
        }
    }

    /// Adds the newly occupied cell `n`. If it touches cells of some partitions, it joins the
    /// partition of the first such cell found and all partitions it touches are merged;
    /// otherwise it forms a partition of its own under a new identifier.
    #[verifier::rlimit(40)]
    fn add_cell(&mut self, n: &CellId)
        requires
            old(self).wf(),
            n.wf(),
            !old(self).owner().contains_key(*n),
            old(self).next_id() < u64::MAX,
        ensures
            final(self).wf(),
            old(self).next_id() <= final(self).next_id() <= old(self).next_id() + 1,
            exists|touched: Set<PartitionId>, keep: PartitionId| {
                &&& touched_parts(old(self).cells_of(), *n, touched)
                &&& touched.contains(keep) || (touched == Set::<PartitionId>::empty() && keep.bits() == old(self).next_id())
                &&& #[trigger] merge_parts(old(self).cells_of(), touched, keep, *n) == final(self).cells_of()
                &&& touched.contains(keep) ==> exists|first: PartitionId| #[trigger] touched.contains(first)
                    && forall|j: PartitionId| #[trigger] touched.contains(j) ==>
                        old(self).cells_of()[j].len() + (if j == first { 1int } else { 0int })
                            <= old(self).cells_of()[keep].len() + (if keep == first { 1int } else { 0int })
            },
    {
        let ghost cells0 = self.cells_of();
        let adj = n.adjacent(1);
        proof {
            lemma_adjacent_one_ids(*n, adj@);
        }
        let mut added: Vec<PartitionId> = Vec::new();
        let mut k: usize = 0;
        while k < adj.len()
            invariant
                self.wf(),
                *self == *old(self),
                cells0 == self.cells_of(),
                adj@.len() == 26,
                forall|j: int| 0 <= j < 26 ==> touching(*n, #[trigger] adj@[j]),
                0 <= k <= 26,
                forall|i: PartitionId| added@.contains(i) <==>
                    exists|j: int| 0 <= j < k && self.owner().contains_key(#[trigger] adj@[j]) && self.owner()[adj@[j]] == i,
            decreases 26 - k,
        {
            match owners_get(&self.reverse_map, &adj[k]) {
                Some(pid) => {
                    let ghost a0 = added@;
                    added.push(*pid);
                    proof {
                        assert forall|i: PartitionId| added@.contains(i) <==>
                            exists|j: int| 0 <= j < k + 1 && self.owner().contains_key(#[trigger] adj@[j]) && self.owner()[adj@[j]] == i by {
                            if added@.contains(i) && i != *pid {
                                assert(a0.contains(i));
                            }
                            if i == *pid {
                                assert(self.owner().contains_key(adj@[k as int]));
                            }
                        }
                    }
                }
                None => {}
            }
            k += 1;
        }
        let ghost touched = Set::new(|i: PartitionId| added@.contains(i));
        proof {
            assert(touched_parts(cells0, *n, touched)) by {
                assert forall|i: PartitionId| #[trigger] touched.contains(i) <==>
                    (cells0.contains_key(i) && exists|c: CellId| #[trigger] cells0[i].contains(c) && touching(*n, c)) by {
                    if touched.contains(i) {
                        let j = choose|j: int| 0 <= j < 26 && self.owner().contains_key(#[trigger] adj@[j]) && self.owner()[adj@[j]] == i;
                        assert(self.parts()[i].cells().contains(adj@[j]));
                        assert(cells0[i].contains(adj@[j]) && touching(*n, adj@[j]));
                    }
                    if cells0.contains_key(i) && exists|c: CellId| #[trigger] cells0[i].contains(c) && touching(*n, c) {
                        let c = choose|c: CellId| #[trigger] cells0[i].contains(c) && touching(*n, c);
                        assert(self.parts()[i].cells().contains(c));
                        assert(adj@.contains(c));
                        let j = choose|j: int| 0 <= j < adj@.len() && adj@[j] == c;
                        assert(self.owner().contains_key(adj@[j]));
                    }
                }
            }
        }
        if added.len() > 0 {
            let first = added[0];
            proof {
                assert(added@.contains(first));
                let j = choose|j: int| 0 <= j < 26 && self.owner().contains_key(#[trigger] adj@[j]) && self.owner()[adj@[j]] == first;
                assert(self.parts()[first].cells().contains(adj@[j]));
                assert(touching(*n, adj@[j]));
            }
            self.push(&first, n);
            let ghost cells1 = self.cells_of();
            let ghost parts1 = self.parts();
            proof {
                assert forall|i: int, j: int| 0 <= i < added@.len() && 0 <= j < added@.len()
                    && self.parts().contains_key(added@[i]) && self.parts().contains_key(added@[j])
                    implies self.parts()[added@[i]].grid_bits() == self.parts()[added@[j]].grid_bits() by {
                    assert(touched.contains(added@[i]) && touched.contains(added@[j]));
                    let ci = choose|c: CellId| #[trigger] cells0[added@[i]].contains(c) && touching(*n, c);
                    let cj = choose|c: CellId| #[trigger] cells0[added@[j]].contains(c) && touching(*n, c);
                    assert(old(self).parts()[added@[i]].cells().contains(ci));
                    assert(old(self).parts()[added@[j]].cells().contains(cj));
                }
            }
            self.merge(&added);
            proof {
                let present = Set::new(|i: PartitionId| added@.contains(i) && parts1.contains_key(i));
                assert(present =~= touched) by {
                    assert forall|i: PartitionId| touched.contains(i) implies parts1.contains_key(i) by {
                        assert(cells0.contains_key(i));
                    }
                }
                assert(present.contains(first));
                let keep = choose|keep: PartitionId| {
                    &&& #[trigger] present.contains(keep)
                    &&& self.cells_of() == merged_cells(cells1, present, keep)
                    &&& self.parts()[keep].grid_bits() == parts1[keep].grid_bits()
                    &&& forall|j: PartitionId| #[trigger] present.contains(j) ==>
                        parts1[j].cells().len() <= parts1[keep].cells().len()
                };
                let m1 = merged_cells(cells1, present, keep);
                let m0 = merge_parts(cells0, touched, keep, *n);
                assert(m1.dom() =~= m0.dom());
                assert forall|i: PartitionId| #[trigger] m1.contains_key(i) implies m1[i] == m0[i] by {
                    if i == keep {
                        assert forall|c: CellId| m1[i].contains(c) <==> m0[i].contains(c) by {
                            if m1[i].contains(c) {
                                let j = choose|j: PartitionId| present.contains(j) && cells1.contains_key(j) && #[trigger] cells1[j].contains(c);
                                if c != *n {
                                    assert(cells0[j].contains(c));
                                }
                            }
                            if m0[i].contains(c) {
                                if c == *n {
                                    assert(cells1[first].contains(c));
                                } else {
                                    let j = choose|j: PartitionId| touched.contains(j) && cells0.contains_key(j) && #[trigger] cells0[j].contains(c);
                                    assert(cells1[j].contains(c));
                                }
                            }
                        }
                        assert(m1[i] =~= m0[i]);
                    }
                }
                assert(m1 =~= m0);
                assert(touched.contains(keep));
                assert(merge_parts(cells0, touched, keep, *n) == self.cells_of());
                assert(!cells0[first].contains(*n)) by {
                    if cells0[first].contains(*n) {
                        assert(old(self).parts()[first].cells().contains(*n));
                    }
                }
                old(self).parts()[first].lemma_wf();
                assert(cells1[first] == cells0[first].insert(*n));
                assert forall|j: PartitionId| #[trigger] touched.contains(j) implies
                    cells0[j].len() + (if j == first { 1int } else { 0int })
                        <= cells0[keep].len() + (if keep == first { 1int } else { 0int }) by {
                    assert(present.contains(j));
                    assert(parts1[j].cells().len() <= parts1[keep].cells().len());
                    assert(cells1[j] == parts1[j].cells());
                    assert(cells1[keep] == parts1[keep].cells());
                    if j != first {
                        assert(cells1[j] == cells0[j]);
                    }
                    if keep != first {
                        assert(cells1[keep] == cells0[keep]);
                    }
                }
            }
        } else {
            let id = self.take_next_id();
            let mut set = cell_set_new();
            cell_set_insert(&mut set, *n);
            proof {
                assert(cell_set(set) =~= set![*n]);
                assert(!cells0.contains_key(id));
            }
            let ghost parts1 = self.parts();
            let ghost owner1 = self.owner();
            self.insert(id, set);
            proof {
                assert(touched =~= Set::<PartitionId>::empty());
                let m0 = merge_parts(cells0, touched, id, *n);
                assert(m0.dom() =~= self.cells_of().dom());
                assert forall|i: PartitionId| #[trigger] m0.contains_key(i) implies m0[i] == self.cells_of()[i] by {
                    if i == id {
                        assert forall|c: CellId| m0[i].contains(c) <==> self.cells_of()[i].contains(c) by {
                            assert(self.cells_of()[i] == cell_set(set));
                        }
                        assert(m0[i] =~= self.cells_of()[i]);
                    }
                }
                assert(m0 =~= self.cells_of());
                let parts = self.parts();
                let owner = self.owner();
                assert(owner.dom() =~= owner1.dom().insert(*n));
                assert forall|i: PartitionId| #[trigger] parts.contains_key(i) implies {
                    &&& parts[i].wf()
                    &&& parts[i].bounds_exact()
                    &&& i.bits() < self.next_partition
                } by {
                    if i != id {
                        assert(parts1.contains_key(i));
                    }
                }
                assert forall|i: PartitionId, c: CellId| parts.contains_key(i) && #[trigger] parts[i].cells().contains(c) implies {
                    &&& c.wf()
                    &&& c.grid_bits() == parts[i].grid_bits()
                    &&& owner.contains_key(c)
                    &&& owner[c] == i
                } by {
                    if i == id {
                        assert(cell_set(set).contains(c));
                        assert(c == *n);
                        let c0 = choose|c0: CellId| #[trigger] cell_set(set).contains(c0) && parts[id].grid_bits() == c0.grid_bits();
                        assert(c0 == *n);
                        assert(owner.contains_key(c));
                    } else {
                        assert(parts1.contains_key(i));
                        assert(parts[i] == parts1[i]);
                        assert(parts1[i].cells().contains(c));
                        assert(c != *n);
                        assert(owner1.contains_key(c) && owner1[c] == i);
                        assert(owner.contains_key(c));
                    }
                }
                assert forall|c: CellId| #[trigger] owner.contains_key(c) implies
                    parts.contains_key(owner[c]) && parts[owner[c]].cells().contains(c) by {
                    if c == *n {
                        assert(cell_set(set).contains(c));
                    } else {
                        assert(owner1.contains_key(c));
                        assert(owner[c] == owner1[c]);
                        assert(parts1[owner1[c]].cells().contains(c));
                        assert(owner1[c] != id);
                    }
                }
            }
        }
    }

    /// Replaces the partition `pid` by the groups of cells in `pieces`: the largest keeps the
    /// identifier, the others get new ones, from the smallest up.
    fn apply_split(&mut self, pid: PartitionId, pieces: Vec<CellHashSet>)
        requires
            old(self).wf(),
            old(self).parts().contains_key(pid),
            pieces_ok(pieces@, old(self).parts()[pid].cells()),
            old(self).next_id() + pieces@.len() <= u64::MAX,
        ensures
            final(self).wf(),
            pieces@.len() >= 1,
            final(self).next_id() == old(self).next_id() + pieces@.len() - 1,
            final(self).owner().dom() == old(self).owner().dom(),
            forall|id: PartitionId| #[trigger] final(self).parts().contains_key(id) <==>
                old(self).parts().contains_key(id) || (old(self).next_id() <= id.bits() < final(self).next_id()),
            forall|id: PartitionId| id != pid && #[trigger] old(self).parts().contains_key(id)
                ==> final(self).parts()[id] == old(self).parts()[id],
            forall|id: PartitionId| #[trigger] final(self).parts().contains_key(id) && (id == pid || !old(self).parts().contains_key(id))
                ==> exists|i: int| 0 <= i < pieces@.len() && final(self).parts()[id].cells() == cell_set(#[trigger] pieces@[i]),
            forall|i: int| 0 <= i < pieces@.len() ==> cell_set(#[trigger] pieces@[i]).len() <= final(self).parts()[pid].cells().len(),
    {
        let ghost parts0 = self.parts();
        let ghost owner0 = self.owner();
        let ghost next0 = self.next_id();
        let ghost grid = parts0[pid].grid_bits();
        let ghost all = parts0[pid].cells();
        proof {
            parts0[pid].lemma_bounds_nonempty();
            assert(all.contains(all.choose())) by {
                if !exists|a: CellId| all.contains(a) {
                    assert(all =~= Set::<CellId>::empty());
                }
            }
            lemma_pieces_nonempty(pieces@, all, all.choose());
        }
        let mut sorted = sort_by_len(pieces);
        let ghost sorted_full = sorted@;
        proof {
            pieces@.to_multiset_ensures();
            sorted@.to_multiset_ensures();
            assert(sorted@.len() == pieces@.len());
            lemma_pieces_permuted(pieces@, sorted@, all);
            lemma_wf_take_out(parts0, owner0, next0, pid);
        }
        let largest = match sorted.pop() {
            Some(p) => p,
            None => {
                proof {
                    assert(false);
                }
                return;
            },
        };
        let ghost sorted0 = sorted@.push(largest);
        let ghost lset = cell_set(largest);
        let ghost parts_mid = self.parts();
        let ghost owner_mid = self.owner();
        proof {
            assert(sorted0 =~= sorted_full);
            assert(sorted0[sorted0.len() - 1] == largest);
            lemma_pieces_split_last(sorted0, all);
            assert(sorted0.drop_last() == sorted@);
        }
        self.insert(pid, largest);
        proof {
            assert(parts0.remove(pid).insert(pid, self.parts()[pid]) =~= self.parts());
            assert(self.owner().dom() =~= owner_mid.dom());
            lemma_place_pending(parts0.remove(pid), owner0, next0, all, self.parts(), self.owner(), next0,
                pid, lset, grid);
            assert(all.difference(lset) =~= union_of(sorted@));
        }
        let ghost lparts = self.parts()[pid];
        while sorted.len() > 0
            invariant
                lookup_wf_pending(self.parts(), self.owner(), self.next_id(), union_of(sorted@)),
                pieces_ok(sorted@, union_of(sorted@)),
                forall|c: CellId| #[trigger] union_of(sorted@).contains(c) ==> c.wf() && c.grid_bits() == grid,
                forall|k: int| 0 <= k < sorted@.len() ==> #[trigger] sorted0.contains(sorted@[k]),
                self.owner().dom() == owner0.dom(),
                next0 <= self.next_id(),
                self.next_id() + sorted@.len() + 1 == next0 + sorted0.len(),
                next0 + sorted0.len() <= u64::MAX + 1,
                forall|id: PartitionId| #[trigger] self.parts().contains_key(id) <==>
                    parts0.contains_key(id) || (next0 <= id.bits() < self.next_id()),
                forall|id: PartitionId| id != pid && #[trigger] parts0.contains_key(id) ==> self.parts()[id] == parts0[id],
                forall|id: PartitionId| #![trigger self.parts()[id]] self.parts().contains_key(id) && !parts0.contains_key(id)
                    ==> exists|k: int| 0 <= k < sorted0.len() && self.parts()[id].cells() == cell_set(#[trigger] sorted0[k]),
                self.parts().contains_key(pid),
                self.parts()[pid] == lparts,
                lparts.cells() == lset,
                forall|id: PartitionId| #[trigger] parts0.contains_key(id) ==> id.bits() < next0,
            decreases sorted@.len(),
        {
            let ghost s0 = sorted@;
            let piece = sorted.remove(0);
            proof {
                assert(s0[0] == piece);
                assert(sorted@ == s0.drop_first());
                lemma_pieces_split_first(s0);
                assert(sorted0.contains(s0[0]));
            }
            let ghost parts1 = self.parts();
            let ghost owner1 = self.owner();
            let ghost next1 = self.next_id();
            let id = self.take_next_id();
            proof {
                assert(!parts1.contains_key(id));
                assert forall|i: PartitionId| #[trigger] parts0.contains_key(i) implies i != id by {
                    assert(i.bits() < next0);
                }
            }
            self.insert(id, piece);
            proof {
                assert(self.owner().dom() =~= owner1.dom());
                lemma_place_pending(parts1, owner1, next1, union_of(s0), self.parts(), self.owner(), self.next_id(),
                    id, cell_set(piece), grid);
                assert(union_of(s0).difference(cell_set(piece)) =~= union_of(sorted@));
                assert forall|i: PartitionId| i != pid && #[trigger] parts0.contains_key(i) implies self.parts()[i] == parts0[i] by {
                    assert(parts1.contains_key(i));
                    assert(parts1[i] == parts0[i]);
                }
                let k0 = choose|k: int| 0 <= k < sorted0.len() && sorted0[k] == piece;
                assert(self.parts()[id].cells() == cell_set(sorted0[k0]));
                assert forall|k: int| 0 <= k < sorted@.len() implies #[trigger] sorted0.contains(sorted@[k]) by {
                    assert(sorted@[k] == s0[k + 1]);
                }
            }
        }
        proof {
            assert(union_of(sorted@) =~= Set::<CellId>::empty());
            lemma_wf_from_pending(self.parts(), self.owner(), self.next_id());
            lemma_pieces_permuted_back(pieces@, sorted0, all, self.parts(), pid, parts0);
            assert forall|id: PartitionId| #[trigger] self.parts().contains_key(id) && (id == pid || !old(self).parts().contains_key(id))
                implies exists|i: int| 0 <= i < pieces@.len() && self.parts()[id].cells() == cell_set(#[trigger] pieces@[i]) by {
                let k = if id == pid {
                    sorted0.len() - 1
                } else {
                    choose|k: int| 0 <= k < sorted0.len() && self.parts()[id].cells() == cell_set(#[trigger] sorted0[k])
                };
                assert(self.parts()[id].cells() == cell_set(sorted0[k]));
                assert(pieces@.contains(sorted0[k]));
                let i = choose|i: int| 0 <= i < pieces@.len() && pieces@[i] == sorted0[k];
                assert(self.parts()[id].cells() == cell_set(pieces@[i]));
            }
        }
    }

    /// The cells of a well-formed lookup whose partitions are the components of some occupied
    /// cells are exactly those cells.
    proof fn lemma_owner_dom(&self, occupied: Set<CellId>)
        requires
            self.wf(),
            are_components(self.cells_of(), occupied),
        ensures
            self.owner().dom() == occupied,
    {
        assert forall|c: CellId| self.owner().contains_key(c) <==> occupied.contains(c) by {
            if self.owner().contains_key(c) {
                let id = self.owner()[c];
                assert(self.parts()[id].cells().contains(c));
                assert(self.cells_of().contains_key(id));
                assert(is_component(occupied, self.cells_of()[id]));
            }
            if occupied.contains(c) {
                let id = choose|id: PartitionId| self.cells_of().contains_key(id) && #[trigger] self.cells_of()[id].contains(c);
                assert(self.parts()[id].cells().contains(c));
            }
        }
        assert(self.owner().dom() =~= occupied);
    }

    /// Adds the newly occupied cells `new_cells`, one after the other.
    fn add_cells(&mut self, new_cells: &Vec<CellId>, Ghost(base): Ghost<Set<CellId>>)
        requires
            old(self).wf(),
            are_components(old(self).cells_of(), base),
            new_cells@.no_duplicates(),
            forall|i: int| 0 <= i < new_cells@.len() ==> !base.contains(#[trigger] new_cells@[i]) && new_cells@[i].wf(),
            old(self).next_id() + new_cells@.len() <= u64::MAX,
        ensures
            final(self).wf(),
            are_components(final(self).cells_of(), base.union(new_cells@.to_set())),
            old(self).next_id() <= final(self).next_id() <= old(self).next_id() + new_cells@.len(),
            forall|id: PartitionId| #[trigger] final(self).parts().contains_key(id) ==>
                old(self).parts().contains_key(id) || old(self).next_id() <= id.bits(),
            forall|id: PartitionId| #[trigger] old(self).parts().contains_key(id)
                && untouched_by(old(self).cells_of()[id], new_cells@)
                ==> final(self).cells_of().contains_key(id) && final(self).cells_of()[id] == old(self).cells_of()[id],
            forall|id: PartitionId| #[trigger] old(self).parts().contains_key(id)
                && grows_alone(old(self).cells_of(), id, base.union(new_cells@.to_set()), new_cells@.to_set())
                ==> final(self).cells_of().contains_key(id)
                    && final(self).cells_of()[id] == grown_group(base.union(new_cells@.to_set()), old(self).cells_of()[id]),
    {
        let ghost full = base.union(new_cells@.to_set());
        let ghost newset = new_cells@.to_set();
        let ghost start = self.cells_of();
        let mut k: usize = 0;
        proof {
            assert(base.union(new_cells@.take(0).to_set()) =~= base);
            assert(new_cells@.take(0).to_set() =~= Set::<CellId>::empty());
            lemma_growing_init(start, base, full, newset);
        }
        while k < new_cells.len()
            invariant
                self.wf(),
                0 <= k <= new_cells@.len(),
                new_cells@.no_duplicates(),
                forall|i: int| 0 <= i < new_cells@.len() ==> !base.contains(#[trigger] new_cells@[i]) && new_cells@[i].wf(),
                are_components(self.cells_of(), base.union(new_cells@.take(k as int).to_set())),
                old(self).next_id() <= self.next_id() <= old(self).next_id() + k,
                old(self).next_id() + new_cells@.len() <= u64::MAX,
                forall|id: PartitionId| #[trigger] self.parts().contains_key(id) ==>
                    old(self).parts().contains_key(id) || old(self).next_id() <= id.bits(),
                forall|id: PartitionId| #[trigger] old(self).parts().contains_key(id)
                    && untouched_by(old(self).cells_of()[id], new_cells@)
                    ==> self.cells_of().contains_key(id) && self.cells_of()[id] == old(self).cells_of()[id],
                full == base.union(new_cells@.to_set()),
                newset == new_cells@.to_set(),
                start == old(self).cells_of(),
                growing_alone(self.cells_of(), start, full, newset, new_cells@.take(k as int).to_set()),
            decreases new_cells@.len() - k,
        {
            let n = new_cells[k];
            let ghost s0 = base.union(new_cells@.take(k as int).to_set());
            let ghost cells0 = self.cells_of();
            let ghost parts0 = self.parts();
            let ghost next0 = self.next_id();
            proof {
                self.lemma_owner_dom(s0);
                assert(!new_cells@.take(k as int).contains(n)) by {
                    if new_cells@.take(k as int).contains(n) {
                        let j = choose|j: int| 0 <= j < k && new_cells@.take(k as int)[j] == n;
                        assert(new_cells@[j] == new_cells@[k as int]);
                    }
                }
                assert(!s0.contains(n));
            }
            self.add_cell(&n);
            proof {
                let (touched, keep) = choose|touched: Set<PartitionId>, keep: PartitionId| {
                    &&& touched_parts(cells0, n, touched)
                    &&& touched.contains(keep) || (touched == Set::<PartitionId>::empty() && keep.bits() == next0)
                    &&& #[trigger] merge_parts(cells0, touched, keep, n) == self.cells_of()
                    &&& touched.contains(keep) ==> exists|first: PartitionId| #[trigger] touched.contains(first)
                        && forall|j: PartitionId| #[trigger] touched.contains(j) ==>
                            cells0[j].len() + (if j == first { 1int } else { 0int })
                                <= cells0[keep].len() + (if keep == first { 1int } else { 0int })
                };
                let done = new_cells@.take(k as int).to_set();
                assert(done.subset_of(newset)) by {
                    assert forall|c: CellId| done.contains(c) implies newset.contains(c) by {
                        let j = choose|j: int| 0 <= j < k && new_cells@.take(k as int)[j] == c;
                        assert(new_cells@[j] == c);
                    }
                }
                assert(s0.subset_of(full));
                assert(newset.contains(n));
                vstd::seq_lib::seq_to_set_is_finite(new_cells@);
                assert forall|j: PartitionId| #[trigger] cells0.contains_key(j) implies cells0[j].finite() by {
                    assert(parts0.contains_key(j));
                    parts0[j].lemma_wf();
                }
                if !touched.contains(keep) {
                    assert(!cells0.contains_key(keep)) by {
                        if cells0.contains_key(keep) {
                            assert(parts0.contains_key(keep));
                        }
                    }
                }
                lemma_components_add(cells0, s0, n, touched, keep);
                assert(new_cells@.take(k as int + 1) == new_cells@.take(k as int).push(n));
                new_cells@.take(k as int).lemma_push_to_set_commute(n);
                if !touched.contains(keep) {
                    assert(!cells0.contains_key(keep)) by {
                        if cells0.contains_key(keep) {
                            assert(parts0.contains_key(keep));
                        }
                    }
                }
                lemma_growing_step(cells0, s0, start, full, newset, done, n, touched, keep);
                assert(done.insert(n) =~= new_cells@.take(k as int + 1).to_set());
                assert(s0.insert(n) =~= base.union(new_cells@.take(k as int + 1).to_set()));
                assert forall|id: PartitionId| #[trigger] self.parts().contains_key(id) implies
                    old(self).parts().contains_key(id) || old(self).next_id() <= id.bits() by {
                    if !parts0.contains_key(id) {
                        assert(self.cells_of().contains_key(id));
                        assert(id == keep);
                    }
                }
                assert forall|id: PartitionId| #[trigger] old(self).parts().contains_key(id)
                    && untouched_by(old(self).cells_of()[id], new_cells@)
                    implies self.cells_of().contains_key(id) && self.cells_of()[id] == old(self).cells_of()[id] by {
                    assert(cells0.contains_key(id) && cells0[id] == old(self).cells_of()[id]);
                    assert(!touched.contains(id)) by {
                        if touched.contains(id) {
                            let c = choose|c: CellId| #[trigger] cells0[id].contains(c) && touching(n, c);
                            assert(new_cells@[k as int] == n);
                        }
                    }
                    assert(id != keep) by {
                        if id == keep && !touched.contains(keep) {
                            assert(parts0.contains_key(id));
                        }
                    }
                }
            }
            k += 1;
        }
        proof {
            assert(new_cells@.take(new_cells@.len() as int) == new_cells@);
            lemma_growing_end(self.cells_of(), start, base, full, newset, new_cells@.to_set());
            assert forall|id: PartitionId| #[trigger] old(self).parts().contains_key(id)
                && grows_alone(start, id, full, newset) implies self.cells_of().contains_key(id)
                    && self.cells_of()[id] == grown_group(full, start[id]) by {
                assert(start.contains_key(id));
            }
        }
    }

    /// Removes the cells of `removed`, which became empty, dropping partitions left without any
    /// cell.
    fn remove_cells(&mut self, removed: &Vec<CellId>)
        requires
            old(self).wf(),
        ensures
            final(self).wf(),
            final(self).next_id() == old(self).next_id(),
            final(self).owner().dom() == old(self).owner().dom().difference(removed@.to_set()),
            forall|id: PartitionId| #[trigger] final(self).parts().contains_key(id) <==>
                old(self).parts().contains_key(id)
                && old(self).parts()[id].cells().difference(removed@.to_set()) != Set::<CellId>::empty(),
            forall|id: PartitionId| #[trigger] final(self).parts().contains_key(id) ==>
                final(self).parts()[id].cells() == old(self).parts()[id].cells().difference(removed@.to_set())
                && final(self).parts()[id].grid_bits() == old(self).parts()[id].grid_bits(),
    {
        let mut k: usize = 0;
        proof {
            assert(removed@.take(0).to_set() =~= Set::<CellId>::empty());
            assert(old(self).owner().dom().difference(removed@.take(0).to_set()) =~= old(self).owner().dom());
            assert forall|id: PartitionId| #[trigger] old(self).parts().contains_key(id) implies
                old(self).parts()[id].cells().difference(removed@.take(0).to_set()) == old(self).parts()[id].cells()
                && old(self).parts()[id].cells() != Set::<CellId>::empty() by {
                assert(old(self).parts()[id].cells().difference(removed@.take(0).to_set()) =~= old(self).parts()[id].cells());
                old(self).parts()[id].lemma_bounds_nonempty();
            }
        }
        while k < removed.len()
            invariant
                self.wf(),
                0 <= k <= removed@.len(),
                self.next_id() == old(self).next_id(),
                self.owner().dom() == old(self).owner().dom().difference(removed@.take(k as int).to_set()),
                forall|id: PartitionId| #[trigger] self.parts().contains_key(id) <==>
                    old(self).parts().contains_key(id)
                    && old(self).parts()[id].cells().difference(removed@.take(k as int).to_set()) != Set::<CellId>::empty(),
                forall|id: PartitionId| #[trigger] self.parts().contains_key(id) ==>
                    self.parts()[id].cells() == old(self).parts()[id].cells().difference(removed@.take(k as int).to_set())
                    && self.parts()[id].grid_bits() == old(self).parts()[id].grid_bits(),
            decreases removed@.len() - k,
        {
            let c = removed[k];
            let ghost r0 = removed@.take(k as int).to_set();
            let ghost parts0 = self.parts();
            self.remove(&c);
            proof {
                let r1 = removed@.take(k as int + 1).to_set();
                assert(removed@.take(k as int + 1) == removed@.take(k as int).push(c));
                removed@.take(k as int).lemma_push_to_set_commute(c);
                assert(r1 == r0.insert(c));
                assert(self.owner().dom() =~= old(self).owner().dom().difference(r1));
                assert forall|id: PartitionId| old(self).parts().contains_key(id) implies
                    #[trigger] old(self).parts()[id].cells().difference(r1) == old(self).parts()[id].cells().difference(r0).remove(c) by {
                    assert(old(self).parts()[id].cells().difference(r1) =~= old(self).parts()[id].cells().difference(r0).remove(c));
                }
                assert forall|id: PartitionId| #[trigger] self.parts().contains_key(id) <==>
                    old(self).parts().contains_key(id)
                    && old(self).parts()[id].cells().difference(r1) != Set::<CellId>::empty() by {
                    if old(self).parts().contains_key(id) && !parts0.contains_key(id) {
                        assert(old(self).parts()[id].cells().difference(r0) =~= Set::<CellId>::empty());
                        assert(old(self).parts()[id].cells().difference(r1) =~= Set::<CellId>::empty());
                    }
                }
            }
            k += 1;
        }
        proof {
            assert(removed@.take(removed@.len() as int) == removed@);
        }
    }

    /// Whether each set of `cands` holds occupied cells of the partition it is filed under, each
    /// touching a cell of `removed`, and at least one.
    pub open spec fn candidates_sound(&self, cands: Map<PartitionId, CellHashSet>, occupied: Set<CellId>, removed: Seq<CellId>) -> bool {
        forall|pid: PartitionId| #[trigger] cands.contains_key(pid) ==> {
            &&& self.parts().contains_key(pid)
            &&& cell_set(cands[pid]).finite()
            &&& cell_set(cands[pid]) != Set::<CellId>::empty()
            &&& forall|c: CellId| #[trigger] cell_set(cands[pid]).contains(c) ==> {
                &&& self.parts()[pid].cells().contains(c)
                &&& occupied.contains(c)
                &&& exists|j: int| 0 <= j < removed.len() && touching(#[trigger] removed[j], c)
            }
        }
    }

    /// Groups the occupied cells touching the cells of `removed` by the partition that holds
    /// them.
    fn split_candidates(&self, cells: &GridHashMap, removed: &Vec<CellId>) -> (r: PartitionCellsMap)
        requires
            self.wf(),
            cells.well_formed(),
            forall|i: int| 0 <= i < removed@.len() ==> (#[trigger] removed@[i]).wf(),
        ensures
            self.candidates_sound(partition_cells(r), cells.occupied(), removed@),
            forall|j: int, a: CellId| 0 <= j < removed@.len() && a.wf() && #[trigger] touching(removed@[j], a)
                && cells.occupied().contains(a) && self.owner().contains_key(a) ==>
                partition_cells(r).contains_key(self.owner()[a]) && cell_set(partition_cells(r)[self.owner()[a]]).contains(a),
    {
        let mut map = partition_cells_new();
        let mut j: usize = 0;
        while j < removed.len()
            invariant
                self.wf(),
                cells.well_formed(),
                forall|i: int| 0 <= i < removed@.len() ==> (#[trigger] removed@[i]).wf(),
                0 <= j <= removed@.len(),
                self.candidates_sound(partition_cells(map), cells.occupied(), removed@),
                forall|jj: int, a: CellId| 0 <= jj < j && a.wf() && #[trigger] touching(removed@[jj], a)
                    && cells.occupied().contains(a) && self.owner().contains_key(a) ==>
                    partition_cells(map).contains_key(self.owner()[a]) && cell_set(partition_cells(map)[self.owner()[a]]).contains(a),
            decreases removed@.len() - j,
        {
            let r = removed[j];
            let adj = r.adjacent(1);
            proof {
                lemma_adjacent_one_ids(r, adj@);
            }
            let mut m: usize = 0;
            while m < adj.len()
                invariant
                    self.wf(),
                    cells.well_formed(),
                    forall|i: int| 0 <= i < removed@.len() ==> (#[trigger] removed@[i]).wf(),
                    0 <= j < removed@.len(),
                    r == removed@[j as int],
                    adj@.len() == 26,
                    forall|q: int| 0 <= q < 26 ==> touching(r, #[trigger] adj@[q]),
                    forall|d: CellId| d.wf() && touching(r, d) ==> adj@.contains(d),
                    0 <= m <= 26,
                    self.candidates_sound(partition_cells(map), cells.occupied(), removed@),
                    forall|jj: int, a: CellId| 0 <= jj < j && a.wf() && #[trigger] touching(removed@[jj], a)
                        && cells.occupied().contains(a) && self.owner().contains_key(a) ==>
                        partition_cells(map).contains_key(self.owner()[a]) && cell_set(partition_cells(map)[self.owner()[a]]).contains(a),
                    forall|q: int| 0 <= q < m && cells.occupied().contains(#[trigger] adj@[q]) && self.owner().contains_key(adj@[q]) ==>
                        partition_cells(map).contains_key(self.owner()[adj@[q]]) && cell_set(partition_cells(map)[self.owner()[adj@[q]]]).contains(adj@[q]),
                decreases 26 - m,
            {
                let a = adj[m];
                if cells.contains(&a) {
                    match self.get(&a) {
                        Some(pid_ref) => {
                            let pid = *pid_ref;
                            let ghost map0 = partition_cells(map);
                            let mut set = match partition_cells_remove(&mut map, &pid) {
                                Some(set) => set,
                                None => cell_set_new(),
                            };
                            let ghost set0 = cell_set(set);
                            cell_set_insert(&mut set, a);
                            partition_cells_insert(&mut map, pid, set);
                            proof {
                                let map1 = partition_cells(map);
                                assert(map1 == map0.insert(pid, set));
                                assert(self.parts()[pid].cells().contains(a));
                                assert(touching(removed@[j as int], a));
                                assert forall|p2: PartitionId| #[trigger] map1.contains_key(p2) implies {
                                    &&& self.parts().contains_key(p2)
                                    &&& cell_set(map1[p2]).finite()
                                    &&& cell_set(map1[p2]) != Set::<CellId>::empty()
                                    &&& forall|c: CellId| #[trigger] cell_set(map1[p2]).contains(c) ==> {
                                        &&& self.parts()[p2].cells().contains(c)
                                        &&& cells.occupied().contains(c)
                                        &&& exists|jj: int| 0 <= jj < removed@.len() && touching(#[trigger] removed@[jj], c)
                                    }
                                } by {
                                    if p2 == pid {
                                        if map0.contains_key(pid) {
                                            assert(set0 == cell_set(map0[pid]));
                                        } else {
                                            assert(set0 == Set::<CellId>::empty());
                                        }
                                        assert(cell_set(map1[p2]).contains(a));
                                        assert forall|c: CellId| #[trigger] cell_set(map1[p2]).contains(c) implies {
                                            &&& self.parts()[p2].cells().contains(c)
                                            &&& cells.occupied().contains(c)
                                            &&& exists|jj: int| 0 <= jj < removed@.len() && touching(#[trigger] removed@[jj], c)
                                        } by {
                                            if c != a {
                                                assert(cell_set(map0[pid]).contains(c));
                                            }
                                        }
                                    }
                                }
                                assert forall|jj: int, b: CellId| 0 <= jj < j && b.wf() && #[trigger] touching(removed@[jj], b)
                                    && cells.occupied().contains(b) && self.owner().contains_key(b) implies
                                    map1.contains_key(self.owner()[b]) && cell_set(map1[self.owner()[b]]).contains(b) by {
                                    assert(map0.contains_key(self.owner()[b]));
                                    assert(cell_set(map0[self.owner()[b]]).contains(b));
                                    if self.owner()[b] == pid {
                                        assert(set0 == cell_set(map0[pid]));
                                    }
                                }
                                assert forall|q: int| 0 <= q < m + 1 && cells.occupied().contains(#[trigger] adj@[q]) && self.owner().contains_key(adj@[q]) implies
                                    map1.contains_key(self.owner()[adj@[q]]) && cell_set(map1[self.owner()[adj@[q]]]).contains(adj@[q]) by {
                                    if q < m {
                                        assert(map0.contains_key(self.owner()[adj@[q]]));
                                        if self.owner()[adj@[q]] == pid {
                                            assert(set0 == cell_set(map0[pid]));
                                        }
                                    }
                                }
                            }
                        }
                        None => {}
                    }
                }
                m += 1;
            }
            proof {
                assert forall|jj: int, a: CellId| 0 <= jj < j + 1 && a.wf() && #[trigger] touching(removed@[jj], a)
                    && cells.occupied().contains(a) && self.owner().contains_key(a) implies
                    partition_cells(map).contains_key(self.owner()[a]) && cell_set(partition_cells(map)[self.owner()[a]]).contains(a) by {
                    if jj == j {
                        assert(adj@.contains(a));
                        let q = choose|q: int| 0 <= q < adj@.len() && adj@[q] == a;
                        assert(cells.occupied().contains(adj@[q]));
                    }
                }
            }
            j += 1;
        }
        map
    }

    /// After `apply_split(pid, pieces)` from the partitions `parts0` with next identifier `next0`,
    /// the largest piece holds `pid` and every partition holding a cell of the old `pid` is one of
    /// the pieces, under `pid` or a new identifier.
    proof fn lemma_apply_split_keeps(&self, parts0: Map<PartitionId, Partition>, next0: u64, pid: PartitionId, pieces: Seq<CellHashSet>)
        requires
            self.wf(),
            parts0.contains_key(pid),
            forall|a: PartitionId, b: PartitionId, c: CellId| parts0.contains_key(a) && parts0.contains_key(b)
                && #[trigger] parts0[a].cells().contains(c) && #[trigger] parts0[b].cells().contains(c) ==> a == b,
            pieces_ok(pieces, parts0[pid].cells()),
            forall|id: PartitionId| #[trigger] self.parts().contains_key(id) <==>
                parts0.contains_key(id) || (next0 <= id.bits() < self.next_id()),
            forall|id: PartitionId| id != pid && #[trigger] parts0.contains_key(id) ==> self.parts()[id] == parts0[id],
            forall|id: PartitionId| #[trigger] self.parts().contains_key(id) && (id == pid || !parts0.contains_key(id))
                ==> exists|i: int| 0 <= i < pieces.len() && self.parts()[id].cells() == cell_set(#[trigger] pieces[i]),
            forall|i: int| 0 <= i < pieces.len() ==> cell_set(#[trigger] pieces[i]).len() <= self.parts()[pid].cells().len(),
        ensures
            keeps_largest_piece(self.cells_of(), pid, parts0[pid].cells(), next0),
            forall|id: PartitionId| #[trigger] self.parts().contains_key(id) && (id == pid || !parts0.contains_key(id))
                ==> self.parts()[id].cells().subset_of(parts0[pid].cells()),
    {
        let all = parts0[pid].cells();
        assert forall|id: PartitionId| #[trigger] self.parts().contains_key(id) && (id == pid || !parts0.contains_key(id))
            implies self.parts()[id].cells().subset_of(all) by {
            let i = choose|i: int| 0 <= i < pieces.len() && self.parts()[id].cells() == cell_set(#[trigger] pieces[i]);
            assert forall|c: CellId| self.parts()[id].cells().contains(c) implies all.contains(c) by {
                assert(union_of(pieces).contains(c));
            }
        }
        assert(self.parts().contains_key(pid));
        let after = self.cells_of();
        assert forall|id: PartitionId, c: CellId| #![trigger after[id].contains(c), all.contains(c)]
            after.contains_key(id) && after[id].contains(c) && all.contains(c) implies {
                &&& id == pid || next0 <= id.bits()
                &&& after[id].subset_of(all)
                &&& after[id].len() <= after[pid].len()
            } by {
            if parts0.contains_key(id) && id != pid {
                assert(self.parts()[id] == parts0[id]);
                assert(parts0[id].cells().contains(c));
                assert(false);
            }
            let i = choose|i: int| 0 <= i < pieces.len() && self.parts()[id].cells() == cell_set(#[trigger] pieces[i]);
            assert(cell_set(pieces[i]).len() <= self.parts()[pid].cells().len());
        }
    }

    /// Replaces each partition that was found to split by its groups of cells.
    fn apply_splits(&mut self, results: Vec<(PartitionId, Vec<CellHashSet>)>, Ghost(occupied): Ghost<Set<CellId>>)
        requires
            old(self).wf(),
            forall|i: int, j: int| 0 <= i < j < results@.len() ==> results@[i].0 != results@[j].0,
            forall|i: int| 0 <= i < results@.len() ==> {
                &&& old(self).parts().contains_key(#[trigger] results@[i].0)
                &&& pieces_ok(results@[i].1@, old(self).parts()[results@[i].0].cells())
                &&& forall|k: int| 0 <= k < results@[i].1@.len() ==> is_component(occupied, cell_set(#[trigger] results@[i].1@[k]))
            },
            old(self).next_id() + old(self).owner().dom().len() <= u64::MAX,
        ensures
            final(self).wf(),
            final(self).owner().dom() == old(self).owner().dom(),
            old(self).next_id() <= final(self).next_id(),
            forall|id: PartitionId| #[trigger] final(self).parts().contains_key(id) <==>
                old(self).parts().contains_key(id) || (old(self).next_id() <= id.bits() < final(self).next_id()),
            forall|id: PartitionId| #[trigger] old(self).parts().contains_key(id)
                && (forall|i: int| 0 <= i < results@.len() ==> results@[i].0 != id) ==> final(self).parts()[id] == old(self).parts()[id],
            forall|id: PartitionId| #[trigger] final(self).parts().contains_key(id)
                && (!old(self).parts().contains_key(id) || exists|i: int| 0 <= i < results@.len() && results@[i].0 == id)
                ==> is_component(occupied, final(self).cells_of()[id]),
            forall|i: int| 0 <= i < results@.len() ==> keeps_largest_piece(final(self).cells_of(), #[trigger] results@[i].0,
                old(self).parts()[results@[i].0].cells(), old(self).next_id()),
            results@.len() == 0 ==> final(self).next_id() == old(self).next_id(),
    {
        let ghost parts0 = self.parts();
        let ghost owner0 = self.owner();
        let ghost next0 = self.next_id();
        let ghost list0 = results@;
        let mut results = results;
        let ghost mut k: int = 0;
        let ghost mut covered: Set<CellId> = Set::empty();
        proof {
            assert(results@ == list0.subrange(0, list0.len() as int));
        }
        while results.len() > 0
            invariant
                self.wf(),
                owner0.dom().finite(),
                forall|a: PartitionId, b: PartitionId, c: CellId| parts0.contains_key(a) && parts0.contains_key(b)
                    && #[trigger] parts0[a].cells().contains(c) && #[trigger] parts0[b].cells().contains(c) ==> a == b,
                forall|a: PartitionId| #[trigger] parts0.contains_key(a) ==> parts0[a].cells().subset_of(owner0.dom()) && a.bits() < next0,
                forall|i: int, j: int| 0 <= i < j < list0.len() ==> list0[i].0 != list0[j].0,
                forall|i: int| 0 <= i < list0.len() ==> {
                    &&& parts0.contains_key(#[trigger] list0[i].0)
                    &&& pieces_ok(list0[i].1@, parts0[list0[i].0].cells())
                    &&& forall|q: int| 0 <= q < list0[i].1@.len() ==> is_component(occupied, cell_set(#[trigger] list0[i].1@[q]))
                },
                next0 + owner0.dom().len() <= u64::MAX,
                0 <= k <= list0.len(),
                results@ == list0.subrange(k, list0.len() as int),
                self.owner().dom() == owner0.dom(),
                covered.subset_of(owner0.dom()),
                forall|c: CellId| #[trigger] covered.contains(c) ==> exists|q: int| 0 <= q < k && parts0[list0[q].0].cells().contains(c),
                next0 <= self.next_id(),
                self.next_id() <= next0 + covered.len(),
                forall|id: PartitionId| #[trigger] self.parts().contains_key(id) <==>
                    parts0.contains_key(id) || (next0 <= id.bits() < self.next_id()),
                forall|id: PartitionId| #[trigger] parts0.contains_key(id) && (forall|q: int| 0 <= q < k ==> list0[q].0 != id)
                    ==> self.parts()[id] == parts0[id],
                forall|id: PartitionId| #[trigger] self.parts().contains_key(id)
                    && (!parts0.contains_key(id) || exists|q: int| 0 <= q < k && list0[q].0 == id)
                    ==> is_component(occupied, self.cells_of()[id]),
                forall|q: int| 0 <= q < k ==> keeps_largest_piece(self.cells_of(), #[trigger] list0[q].0,
                    parts0[list0[q].0].cells(), next0),
                k == 0 ==> covered == Set::<CellId>::empty(),
            decreases results@.len(),
        {
            let (pid, pieces) = results.remove(0);
            let ghost parts1 = self.parts();
            let ghost next1 = self.next_id();
            let ghost cells_pid = parts0[pid].cells();
            proof {
                assert(list0[k] == (pid, pieces));
                assert(parts0.contains_key(list0[k].0));
                assert(forall|q: int| 0 <= q < k ==> list0[q].0 != pid);
                assert(parts1[pid] == parts0[pid]);
                vstd::set_lib::lemma_set_subset_finite(owner0.dom(), cells_pid);
                lemma_pieces_count(pieces@, cells_pid);
                assert(covered.disjoint(cells_pid)) by {
                    assert forall|c: CellId| covered.contains(c) implies !cells_pid.contains(c) by {
                        let q = choose|q: int| 0 <= q < k && parts0[list0[q].0].cells().contains(c);
                        assert(list0[q].0 != pid);
                    }
                }
                vstd::set_lib::lemma_set_disjoint_lens(covered, cells_pid);
                vstd::set_lib::lemma_len_subset(covered.union(cells_pid), owner0.dom());
            }
            self.apply_split(pid, pieces);
            proof {
                self.lemma_apply_split_keeps(parts1, next1, pid, pieces@);
                assert forall|q: int| 0 <= q < k + 1 implies keeps_largest_piece(self.cells_of(), #[trigger] list0[q].0,
                    parts0[list0[q].0].cells(), next0) by {
                    if q == k {
                        assert(list0[q].0 == pid);
                    } else {
                        let pq = list0[q].0;
                        let region = parts0[pq].cells();
                        let before = parts1.map_values(|p: Partition| p.cells());
                        assert(keeps_largest_piece(before, pq, region, next0));
                        assert(pq != pid);
                        assert(parts1.contains_key(pq));
                        assert(self.parts()[pq] == parts1[pq]);
                        assert forall|id: PartitionId, c: CellId| #![trigger self.cells_of()[id].contains(c), region.contains(c)]
                            self.cells_of().contains_key(id) && self.cells_of()[id].contains(c) && region.contains(c) implies {
                                &&& id == pq || next0 <= id.bits()
                                &&& self.cells_of()[id].subset_of(region)
                                &&& self.cells_of()[id].len() <= self.cells_of()[pq].len()
                            } by {
                            if parts1.contains_key(id) && id != pid {
                                assert(self.parts()[id] == parts1[id]);
                                assert(before[id].contains(c));
                            } else {
                                assert(self.parts()[id].cells().subset_of(cells_pid));
                                assert(cells_pid.contains(c));
                                assert(parts0[pid].cells().contains(c) && parts0[pq].cells().contains(c));
                            }
                        }
                    }
                }
                let covered2 = covered.union(cells_pid);
                assert forall|c: CellId| #[trigger] covered2.contains(c) implies
                    exists|q: int| 0 <= q < k + 1 && parts0[list0[q].0].cells().contains(c) by {
                    if !covered.contains(c) {
                        assert(parts0[list0[k].0].cells().contains(c));
                    } else {
                        let q = choose|q: int| 0 <= q < k && parts0[list0[q].0].cells().contains(c);
                    }
                }
                assert forall|id: PartitionId| #[trigger] self.parts().contains_key(id) implies
                    parts0.contains_key(id) || (next0 <= id.bits() < self.next_id()) by {
                }
                assert forall|id: PartitionId| #[trigger] parts0.contains_key(id) && (forall|q: int| 0 <= q < k + 1 ==> list0[q].0 != id)
                    implies self.parts()[id] == parts0[id] by {
                    assert(list0[k].0 != id);
                    assert(parts1.contains_key(id));
                }
                assert forall|id: PartitionId| #[trigger] self.parts().contains_key(id)
                    && (!parts0.contains_key(id) || exists|q: int| 0 <= q < k + 1 && list0[q].0 == id)
                    implies is_component(occupied, self.cells_of()[id]) by {
                    if id == pid || !parts1.contains_key(id) {
                        let i = choose|i: int| 0 <= i < pieces@.len() && self.parts()[id].cells() == cell_set(#[trigger] pieces@[i]);
                        assert(is_component(occupied, cell_set(list0[k].1@[i])));
                    } else {
                        assert(self.parts()[id] == parts1[id]);
                        if parts0.contains_key(id) {
                            let q = choose|q: int| 0 <= q < k + 1 && list0[q].0 == id;
                            assert(q != k);
                        }
                    }
                }
                covered = covered2;
                k = k + 1;
                assert(results@ =~= list0.subrange(k, list0.len() as int));
            }
        }
        proof {
            assert(k == list0.len());
            if list0.len() == 0 {
                assert(covered.len() == 0);
            }
        }
    }

    /// Brings the partitions up to date with the last update of `cells`.
    ///
    /// Each newly occupied cell joins the partitions of the cells it touches, merging them into
    /// the largest, or starts a partition of its own. Each newly emptied cell leaves its
    /// partition, and partitions left without cells are removed. A partition that lost cells and
    /// no longer forms one connected group is split: its largest group keeps the identifier and
    /// the others get new identifiers. New identifiers are handed out in order from a counter.
    /// If the partitions were the connected components of the occupied cells before the last
    /// update of `cells`, they are those of the occupied cells after it.
    ///
    /// A partition that grows without meeting another partition keeps its identifier, as long
    /// as it gains at most one new cell or fewer new cells than it had: with more, the new cells
    /// may first form a partition of their own that outgrows it before the two are merged.
    pub fn update(&mut self, cells: &GridHashMap)
        requires
            old(self).wf(),
            cells.well_formed(),
            are_components(old(self).cells_of(), cells.occupied_before()),
            old(self).next_id() + cells.newly_inserted().len() + cells.occupied().len() <= u64::MAX,
        ensures
            final(self).wf(),
            are_components(final(self).cells_of(), cells.occupied()),
            old(self).next_id() <= final(self).next_id(),
            forall|id: PartitionId| #[trigger] final(self).parts().contains_key(id) ==>
                old(self).parts().contains_key(id) || old(self).next_id() <= id.bits(),
            forall|id: PartitionId| #[trigger] old(self).cells_of().contains_key(id)
                && untouched_by_cells(old(self).cells_of()[id], cells.newly_inserted())
                && old(self).cells_of()[id].difference(cells.newly_removed()) != Set::<CellId>::empty()
                && all_connected(cells.occupied(), old(self).cells_of()[id].difference(cells.newly_removed()))
                ==> final(self).cells_of().contains_key(id)
                    && final(self).cells_of()[id] == old(self).cells_of()[id].difference(cells.newly_removed()),
            forall|id: PartitionId| #[trigger] old(self).cells_of().contains_key(id)
                && untouched_by_cells(old(self).cells_of()[id], cells.newly_inserted())
                && old(self).cells_of()[id].difference(cells.newly_removed()) != Set::<CellId>::empty()
                ==> keeps_largest_piece(final(self).cells_of(), id,
                    old(self).cells_of()[id].difference(cells.newly_removed()), old(self).next_id()),
            forall|id: PartitionId| #[trigger] final(self).cells_of().contains_key(id) ==> id.bits() < final(self).next_id(),
            cells.newly_removed() == Set::<CellId>::empty()
                ==> final(self).next_id() <= old(self).next_id() + cells.newly_inserted().len(),
            cells.newly_inserted() == Set::<CellId>::empty() ==> forall|id: PartitionId|
                old(self).next_id() <= id.bits() < final(self).next_id() ==> #[trigger] final(self).cells_of().contains_key(id),
            forall|id: PartitionId| #[trigger] old(self).cells_of().contains_key(id)
                && grows_alone(old(self).cells_of(), id, cells.occupied_before().union(cells.newly_inserted()), cells.newly_inserted())
                && grown_group(cells.occupied_before().union(cells.newly_inserted()), old(self).cells_of()[id])
                    .difference(cells.newly_removed()) != Set::<CellId>::empty()
                ==> keeps_largest_piece(final(self).cells_of(), id,
                    grown_group(cells.occupied_before().union(cells.newly_inserted()), old(self).cells_of()[id])
                        .difference(cells.newly_removed()),
                    old(self).next_id()),
    {
        let ghost base = cells.occupied_before();
        let ghost occ = cells.occupied();
        let ghost next0 = self.next_id();
        proof {
            cells.lemma_well_formed();
        }
        let inserted = cell_set_to_vec(cells.just_inserted());
        proof {
            inserted@.unique_seq_to_set();
            assert forall|i: int| 0 <= i < inserted@.len() implies !base.contains(#[trigger] inserted@[i]) && inserted@[i].wf() by {
                assert(inserted@.to_set().contains(inserted@[i]));
            }
            assert(inserted@.len() == cells.newly_inserted().len());
        }
        self.add_cells(&inserted, Ghost(base));
        let ghost s1 = base.union(inserted@.to_set());
        let ghost parts1 = self.parts();
        let ghost p1 = self.cells_of();
        let ghost next1 = self.next_id();
        proof {
            self.lemma_owner_dom(s1);
        }
        let removed = cell_set_to_vec(cells.just_removed());
        let ghost rem = removed@.to_set();
        proof {
            assert forall|c: CellId| #[trigger] occ.contains(c) <==> s1.contains(c) && !rem.contains(c) by {
                assert(inserted@.to_set().contains(c) <==> cells.newly_inserted().contains(c));
            }
            assert(rem.subset_of(s1));
            assert forall|i: int| 0 <= i < removed@.len() implies (#[trigger] removed@[i]).wf() by {
                assert(rem.contains(removed@[i]));
            }
        }
        self.remove_cells(&removed);
        let ghost parts2 = self.parts();
        let ghost owner2 = self.owner();
        let ghost next2 = self.next_id();
        proof {
            assert(owner2.dom() =~= occ);
        }
        let mut candidates = self.split_candidates(cells, &removed);
        let ghost cands = partition_cells(candidates);
        proof {
            assert forall|pid: PartitionId| #[trigger] cands.contains_key(pid) implies cell_set(cands[pid]).subset_of(occ) by {
            }
        }
        let results = find_splits(cells, &mut candidates);
        proof {
            // Every remaining cell touching an emptied cell of its old component is a candidate.
            assert forall|id: PartitionId, d: CellId, r: CellId| #![trigger p1[id].contains(d), touching(d, r)]
                parts2.contains_key(id) && p1[id].contains(d) && !rem.contains(d)
                && p1[id].contains(r) && rem.contains(r) && touching(d, r) implies
                cands.contains_key(id) && cell_set(cands[id]).contains(d) by {
                assert(parts2[id].cells().contains(d));
                let j = choose|j: int| 0 <= j < removed@.len() && removed@[j] == r;
                lemma_neighbors_symmetric(id_key(d), id_key(r));
                assert(touching(removed@[j], d));
                assert(occ.contains(d));
            }
            assert forall|i: int| 0 <= i < results@.len() implies {
                &&& parts2.contains_key(#[trigger] results@[i].0)
                &&& pieces_ok(results@[i].1@, parts2[results@[i].0].cells())
                &&& forall|q: int| 0 <= q < results@[i].1@.len() ==> is_component(occ, cell_set(#[trigger] results@[i].1@[q]))
            } by {
                let pid = results@[i].0;
                let cand = cell_set(cands[pid]);
                assert(cands.contains_key(pid));
                assert(parts1.contains_key(pid));
                assert(p1.contains_key(pid));
                assert(is_component(s1, p1[pid]));
                assert(parts2[pid].cells() == p1[pid].difference(rem));
                assert forall|c: CellId| #[trigger] cand.contains(c) implies exists|r: CellId| rem.contains(r) && #[trigger] touching(r, c) by {
                    let j = choose|j: int| 0 <= j < removed@.len() && touching(#[trigger] removed@[j], c);
                    assert(rem.contains(removed@[j]));
                }
                assert forall|d: CellId, r: CellId| p1[pid].contains(d) && !rem.contains(d) && p1[pid].contains(r) && rem.contains(r)
                    && #[trigger] touching(d, r) implies cand.contains(d) by {
                }
                lemma_split_pieces(p1[pid], s1, rem, occ, cand, results@[i].1@);
            }
            assert(self.owner().dom().len() == occ.len());
        }
        self.apply_splits(results, Ghost(occ));
        proof {
            assert forall|id: PartitionId| #[trigger] self.parts().contains_key(id) implies is_component(occ, self.cells_of()[id]) by {
                if parts2.contains_key(id) && (forall|i: int| 0 <= i < results@.len() ==> results@[i].0 != id) {
                    assert(self.parts()[id] == parts2[id]);
                    assert(parts1.contains_key(id));
                    assert(p1.contains_key(id));
                    assert(is_component(s1, p1[id]));
                    assert(parts2[id].cells() == p1[id].difference(rem));
                    parts2[id].lemma_bounds_nonempty();
                    let cand = if cands.contains_key(id) { cell_set(cands[id]) } else { Set::<CellId>::empty() };
                    assert forall|d: CellId, r: CellId| p1[id].contains(d) && !rem.contains(d) && p1[id].contains(r) && rem.contains(r)
                        && #[trigger] touching(d, r) implies cand.contains(d) by {
                    }
                    lemma_unsplit(p1[id], s1, rem, occ, cand);
                } else {
                    if parts2.contains_key(id) {
                        let i = choose|i: int| 0 <= i < results@.len() && results@[i].0 == id;
                    }
                }
            }
            assert forall|c: CellId| occ.contains(c) implies exists|id: PartitionId| self.cells_of().contains_key(id)
                && #[trigger] self.cells_of()[id].contains(c) by {
                assert(self.owner().contains_key(c));
                assert(self.parts()[self.owner()[c]].cells().contains(c));
            }
            assert forall|i: PartitionId, j: PartitionId, c: CellId|
                #![trigger self.cells_of()[i].contains(c), self.cells_of()[j].contains(c)]
                self.cells_of().contains_key(i) && self.cells_of().contains_key(j) && self.cells_of()[i].contains(c)
                && self.cells_of()[j].contains(c) implies i == j by {
                assert(self.parts()[i].cells().contains(c));
                assert(self.parts()[j].cells().contains(c));
            }
            // A partition untouched by the new cells, whose remaining cells stay connected, keeps
            // its identifier.
            assert forall|id: PartitionId| #[trigger] old(self).cells_of().contains_key(id)
                && untouched_by_cells(old(self).cells_of()[id], cells.newly_inserted())
                && old(self).cells_of()[id].difference(cells.newly_removed()) != Set::<CellId>::empty()
                && all_connected(occ, old(self).cells_of()[id].difference(cells.newly_removed()))
                implies self.cells_of().contains_key(id)
                    && self.cells_of()[id] == old(self).cells_of()[id].difference(cells.newly_removed()) by {
                let pc = old(self).cells_of()[id];
                assert(untouched_by(pc, inserted@)) by {
                    assert forall|k: int, c: CellId| #![trigger touching(inserted@[k], c)]
                        0 <= k < inserted@.len() && pc.contains(c) implies !touching(inserted@[k], c) by {
                        assert(inserted@.to_set().contains(inserted@[k]));
                    }
                }
                assert(p1.contains_key(id) && p1[id] == pc);
                assert(rem == cells.newly_removed());
                assert(parts2.contains_key(id));
                assert(parts2[id].cells() == pc.difference(rem));
                assert forall|i: int| 0 <= i < results@.len() implies results@[i].0 != id by {
                    if results@[i].0 == id {
                        let cand = cell_set(cands[id]);
                        assert(cands.contains_key(id));
                        assert(cand != Set::<CellId>::empty());
                        assert(!all_connected(occ, cand));
                        assert forall|a: CellId, b: CellId| #![trigger cand.contains(a), cand.contains(b)]
                            cand.contains(a) && cand.contains(b) implies reachable(occ, a, b) by {
                            assert(pc.difference(rem).contains(a));
                            assert(pc.difference(rem).contains(b));
                        }
                        assert(false);
                    }
                }
                assert(self.parts()[id] == parts2[id]);
            }
            // Identifiers are handed out in order from the counter.
            self.lemma_wf();
            assert(next2 == next1);
            if cells.newly_removed() == Set::<CellId>::empty() {
                assert(removed@.len() == 0) by {
                    if removed@.len() > 0 {
                        assert(rem.contains(removed@[0]));
                    }
                }
                assert(cands =~= Map::<PartitionId, CellHashSet>::empty()) by {
                    assert forall|pid: PartitionId| !cands.contains_key(pid) by {
                        if cands.contains_key(pid) {
                            let c = choose|c: CellId| cell_set(cands[pid]).contains(c);
                            assert(cell_set(cands[pid]).contains(c)) by {
                                if !cell_set(cands[pid]).contains(c) {
                                    assert(cell_set(cands[pid]) =~= Set::<CellId>::empty());
                                }
                            }
                        }
                    }
                }
                assert(results@.len() == 0) by {
                    if results@.len() > 0 {
                        assert(cands.contains_key(results@[0].0));
                    }
                }
            }
            if cells.newly_inserted() == Set::<CellId>::empty() {
                assert(inserted@.len() == 0);
                assert forall|id: PartitionId| old(self).next_id() <= id.bits() < self.next_id()
                    implies #[trigger] self.cells_of().contains_key(id) by {
                    assert(self.parts().contains_key(id));
                }
            }
            // A partition that grows alone keeps its identifier for its largest group of
            // remaining cells.
            assert(inserted@.to_set() =~= cells.newly_inserted()) by {
                assert forall|c: CellId| inserted@.to_set().contains(c) <==> cells.newly_inserted().contains(c) by {
                }
            }
            assert forall|id: PartitionId| #[trigger] old(self).cells_of().contains_key(id)
                && grows_alone(old(self).cells_of(), id, base.union(cells.newly_inserted()), cells.newly_inserted())
                && grown_group(base.union(cells.newly_inserted()), old(self).cells_of()[id])
                    .difference(cells.newly_removed()) != Set::<CellId>::empty()
                implies keeps_largest_piece(self.cells_of(), id,
                    grown_group(base.union(cells.newly_inserted()), old(self).cells_of()[id]).difference(cells.newly_removed()),
                    old(self).next_id()) by {
                let g = grown_group(s1, old(self).cells_of()[id]);
                let region = g.difference(cells.newly_removed());
                assert(old(self).parts().contains_key(id));
                assert(p1.contains_key(id) && p1[id] == g);
                assert(rem == cells.newly_removed());
                assert(parts2.contains_key(id));
                assert(parts2[id].cells() == region);
                if exists|i: int| 0 <= i < results@.len() && results@[i].0 == id {
                    let i = choose|i: int| 0 <= i < results@.len() && results@[i].0 == id;
                    assert(keeps_largest_piece(self.cells_of(), results@[i].0, parts2[results@[i].0].cells(), next2));
                } else {
                    assert(self.parts()[id] == parts2[id]);
                    self.lemma_wf();
                    let after = self.cells_of();
                    assert forall|id2: PartitionId, c: CellId| #![trigger after[id2].contains(c), region.contains(c)]
                        after.contains_key(id2) && after[id2].contains(c) && region.contains(c) implies {
                            &&& id2 == id || old(self).next_id() <= id2.bits()
                            &&& after[id2].subset_of(region)
                            &&& after[id2].len() <= after[id].len()
                        } by {
                        assert(self.parts()[id2].cells().contains(c));
                        assert(self.parts()[id].cells().contains(c));
                    }
                }
            }
            // A partition untouched by the new cells keeps its identifier for its largest group
            // of remaining cells.
            assert forall|id: PartitionId| #[trigger] old(self).cells_of().contains_key(id)
                && untouched_by_cells(old(self).cells_of()[id], cells.newly_inserted())
                && old(self).cells_of()[id].difference(cells.newly_removed()) != Set::<CellId>::empty()
                implies keeps_largest_piece(self.cells_of(), id,
                    old(self).cells_of()[id].difference(cells.newly_removed()), old(self).next_id()) by {
                let pc = old(self).cells_of()[id];
                let region = pc.difference(cells.newly_removed());
                assert(untouched_by(pc, inserted@)) by {
                    assert forall|k: int, c: CellId| #![trigger touching(inserted@[k], c)]
                        0 <= k < inserted@.len() && pc.contains(c) implies !touching(inserted@[k], c) by {
                        assert(inserted@.to_set().contains(inserted@[k]));
                    }
                }
                assert(p1.contains_key(id) && p1[id] == pc);
                assert(rem == cells.newly_removed());
                assert(parts2.contains_key(id));
                assert(parts2[id].cells() == region);
                if exists|i: int| 0 <= i < results@.len() && results@[i].0 == id {
                    let i = choose|i: int| 0 <= i < results@.len() && results@[i].0 == id;
                    assert(keeps_largest_piece(self.cells_of(), results@[i].0, parts2[results@[i].0].cells(), next2));
                } else {
                    assert(self.parts()[id] == parts2[id]);
                    self.lemma_wf();
                    let after = self.cells_of();
                    assert forall|id2: PartitionId, c: CellId| #![trigger after[id2].contains(c), region.contains(c)]
                        after.contains_key(id2) && after[id2].contains(c) && region.contains(c) implies {
                            &&& id2 == id || old(self).next_id() <= id2.bits()
                            &&& after[id2].subset_of(region)
                            &&& after[id2].len() <= after[id].len()
                        } by {
                        assert(self.parts()[id2].cells().contains(c));
                        assert(self.parts()[id].cells().contains(c));
                    }
                }
            }
        }
    }

    /// Hands out the next partition identifier.
    fn take_next_id(&mut self) -> (r: PartitionId)
        requires
            old(self).next_id() < u64::MAX,
        ensures
            r.bits() == old(self).next_id(),
            final(self).next_id() == old(self).next_id() + 1,
            final(self).parts() == old(self).parts(),
            final(self).owner() == old(self).owner(),
            old(self).wf() ==> final(self).wf(),
    {
        let id = PartitionId::new(self.next_partition);
        self.next_partition += 1;
        id
    }
}

} // verus!
