//! Connected components of occupied cells, and how they change as cells become occupied or
//! empty.

use vstd::prelude::*;
use crate::hash::component::{CellId, touching, id_key, lemma_neighbors_symmetric};
use crate::hash::map::{
    reachable, lemma_reachable_self, lemma_reachable_step, lemma_reachable_symmetric,
    lemma_reachable_trans, lemma_reachable_mono, lemma_reachable_ends,
    lemma_closed_contains_reachable,
};
use crate::partition::PartitionId;

verus! {

/// The occupied cells reachable from `seed`.
pub open spec fn reach_set(occupied: Set<CellId>, seed: CellId) -> Set<CellId> {
    Set::new(|y: CellId| reachable(occupied, seed, y))
}

/// Whether `s` holds every occupied cell that touches one of its cells.
pub open spec fn is_closed(occupied: Set<CellId>, s: Set<CellId>) -> bool {
    forall|x: CellId, d: CellId| s.contains(x) && occupied.contains(d) && #[trigger] touching(x, d) ==> s.contains(d)
}

/// Whether `k` is a connected component of the occupied cells: a non-empty set of occupied cells,
/// each reachable from each other, that holds every occupied cell touching one of its cells.
pub open spec fn is_component(occupied: Set<CellId>, k: Set<CellId>) -> bool {
    &&& k.subset_of(occupied)
    &&& k != Set::<CellId>::empty()
    &&& forall|a: CellId, b: CellId| #![trigger k.contains(a), k.contains(b)] k.contains(a) && k.contains(b) ==> reachable(occupied, a, b)
    &&& is_closed(occupied, k)
}

/// Whether the sets of `parts` are exactly the connected components of the occupied cells: each
/// is a component, every occupied cell is in one of them, and no cell is in two.
pub open spec fn are_components(parts: Map<PartitionId, Set<CellId>>, occupied: Set<CellId>) -> bool {
    &&& forall|id: PartitionId| #[trigger] parts.contains_key(id) ==> is_component(occupied, parts[id])
    &&& forall|c: CellId| occupied.contains(c) ==> exists|id: PartitionId| parts.contains_key(id) && #[trigger] parts[id].contains(c)
    &&& forall|i: PartitionId, j: PartitionId, c: CellId|
        #![trigger parts[i].contains(c), parts[j].contains(c)]
        parts.contains_key(i) && parts.contains_key(j) && parts[i].contains(c) && parts[j].contains(c) ==> i == j
}

/// The cells reachable from an occupied cell form a connected component.
pub proof fn lemma_reach_set_component(occupied: Set<CellId>, seed: CellId)
    requires
        occupied.contains(seed),
    ensures
        is_component(occupied, reach_set(occupied, seed)),
        reach_set(occupied, seed).contains(seed),
{
    let k = reach_set(occupied, seed);
    lemma_reachable_self(occupied, seed);
    assert(k.contains(seed));
    assert forall|y: CellId| k.contains(y) implies occupied.contains(y) by {
        lemma_reachable_ends(occupied, seed, y);
    }
    assert forall|a: CellId, b: CellId| k.contains(a) && k.contains(b) implies reachable(occupied, a, b) by {
        lemma_reachable_symmetric(occupied, seed, a);
        lemma_reachable_trans(occupied, a, seed, b);
    }
    assert forall|x: CellId, d: CellId| k.contains(x) && occupied.contains(d) && #[trigger] touching(x, d) implies k.contains(d) by {
        lemma_reachable_step(occupied, seed, x, d);
    }
}

/// A component is the set of cells reachable from any of its cells.
pub proof fn lemma_component_is_reach_set(occupied: Set<CellId>, k: Set<CellId>, a: CellId)
    requires
        is_component(occupied, k),
        k.contains(a),
    ensures
        k == reach_set(occupied, a),
{
    assert forall|y: CellId| k.contains(y) <==> reach_set(occupied, a).contains(y) by {
        if k.contains(y) {
            assert(reachable(occupied, a, y));
        }
        if reachable(occupied, a, y) {
            lemma_closed_contains_reachable(occupied, k, a, y);
        }
    }
    assert(k =~= reach_set(occupied, a));
}

/// The partition of the cells obtained by giving the cell `n` and every part in `touched` to the
/// part `keep`.
pub open spec fn merge_parts(
    parts: Map<PartitionId, Set<CellId>>,
    touched: Set<PartitionId>,
    keep: PartitionId,
    n: CellId,
) -> Map<PartitionId, Set<CellId>> {
    Map::new(
        |i: PartitionId| (parts.contains_key(i) && !touched.contains(i)) || i == keep,
        |i: PartitionId| if i == keep {
            Set::new(|c: CellId| c == n || exists|j: PartitionId| touched.contains(j) && parts.contains_key(j) && #[trigger] parts[j].contains(c))
        } else {
            parts[i]
        },
    )
}

/// Whether `touched` holds exactly the parts with a cell touching `n`.
pub open spec fn touched_parts(parts: Map<PartitionId, Set<CellId>>, n: CellId, touched: Set<PartitionId>) -> bool {
    forall|i: PartitionId| #[trigger] touched.contains(i) <==>
        (parts.contains_key(i) && exists|c: CellId| #[trigger] parts[i].contains(c) && touching(n, c))
}

/// When a cell becomes occupied, the components are those that it touches merged together with
/// it, and all others unchanged. A cell touching no component forms one of its own.
pub proof fn lemma_components_add(
    parts: Map<PartitionId, Set<CellId>>,
    occupied: Set<CellId>,
    n: CellId,
    touched: Set<PartitionId>,
    keep: PartitionId,
)
    requires
        are_components(parts, occupied),
        !occupied.contains(n),
        touched_parts(parts, n, touched),
        touched.contains(keep) || (touched == Set::<PartitionId>::empty() && !parts.contains_key(keep)),
    ensures
        are_components(merge_parts(parts, touched, keep, n), occupied.insert(n)),
{
    let occ = occupied.insert(n);
    let np = merge_parts(parts, touched, keep, n);
    let m = np[keep];
    assert(occupied.subset_of(occ));
    assert forall|x: CellId| #[trigger] touching(x, n) implies touching(n, x) by {
        lemma_neighbors_symmetric(id_key(x), id_key(n));
    }
    // Every cell of the merged part reaches `n`.
    assert forall|a: CellId| m.contains(a) implies reachable(occ, a, n) by {
        lemma_reachable_self(occ, n);
        if a != n {
            let j = choose|j: PartitionId| touched.contains(j) && parts.contains_key(j) && #[trigger] parts[j].contains(a);
            let c = choose|c: CellId| #[trigger] parts[j].contains(c) && touching(n, c);
            assert(is_component(occupied, parts[j]));
            assert(reachable(occupied, a, c));
            lemma_reachable_mono(occupied, occ, a, c);
            lemma_neighbors_symmetric(id_key(n), id_key(c));
            lemma_reachable_step(occ, a, c, n);
        }
    }
    assert forall|id: PartitionId| #[trigger] np.contains_key(id) implies is_component(occ, np[id]) by {
        if id == keep {
            assert(m.contains(n));
            assert forall|a: CellId| m.contains(a) implies occ.contains(a) by {
                if a != n {
                    let j = choose|j: PartitionId| touched.contains(j) && parts.contains_key(j) && #[trigger] parts[j].contains(a);
                    assert(is_component(occupied, parts[j]));
                }
            }
            assert forall|a: CellId, b: CellId| m.contains(a) && m.contains(b) implies reachable(occ, a, b) by {
                lemma_reachable_symmetric(occ, b, n);
                lemma_reachable_trans(occ, a, n, b);
            }
            assert forall|x: CellId, d: CellId| m.contains(x) && occ.contains(d) && #[trigger] touching(x, d) implies m.contains(d) by {
                if d != n {
                    assert(occupied.contains(d));
                    let jd = choose|jd: PartitionId| parts.contains_key(jd) && #[trigger] parts[jd].contains(d);
                    if x == n {
                        assert(touched.contains(jd));
                    } else {
                        let j = choose|j: PartitionId| touched.contains(j) && parts.contains_key(j) && #[trigger] parts[j].contains(x);
                        assert(is_component(occupied, parts[j]));
                        assert(parts[j].contains(d));
                    }
                }
            }
            assert(m != Set::<CellId>::empty());
        } else {
            let k = parts[id];
            assert(np[id] == k);
            assert(!touched.contains(id));
            assert(is_component(occupied, k));
            assert forall|a: CellId, b: CellId| k.contains(a) && k.contains(b) implies reachable(occ, a, b) by {
                lemma_reachable_mono(occupied, occ, a, b);
            }
            assert forall|x: CellId, d: CellId| k.contains(x) && occ.contains(d) && #[trigger] touching(x, d) implies k.contains(d) by {
                if d == n {
                    assert(touching(n, x));
                }
            }
        }
    }
    assert forall|c: CellId| occ.contains(c) implies exists|id: PartitionId| np.contains_key(id) && #[trigger] np[id].contains(c) by {
        if c == n {
            assert(np[keep].contains(c));
        } else {
            let j = choose|j: PartitionId| parts.contains_key(j) && #[trigger] parts[j].contains(c);
            if touched.contains(j) {
                assert(np[keep].contains(c));
            } else {
                assert(np[j].contains(c));
            }
        }
    }
    assert forall|i: PartitionId, j: PartitionId, c: CellId|
        #![trigger np[i].contains(c), np[j].contains(c)]
        np.contains_key(i) && np.contains_key(j) && np[i].contains(c) && np[j].contains(c) implies i == j by {
        if i != keep && j != keep {
            assert(parts[i].contains(c) && parts[j].contains(c));
        } else if i == keep && j != keep {
            assert(parts[j].contains(c));
            assert(is_component(occupied, parts[j]));
            assert(c != n);
            let i2 = choose|i2: PartitionId| touched.contains(i2) && parts.contains_key(i2) && #[trigger] parts[i2].contains(c);
            assert(i2 == j);
        } else if j == keep && i != keep {
            assert(parts[i].contains(c));
            assert(is_component(occupied, parts[i]));
            assert(c != n);
            let j2 = choose|j2: PartitionId| touched.contains(j2) && parts.contains_key(j2) && #[trigger] parts[j2].contains(c);
            assert(j2 == i);
        }
    }
}

/// After the cells of `removed` become empty, the rest of a component whose remaining cells
/// touching the removed cells are all reachable from one of its remaining cells is itself a
/// component.
pub proof fn lemma_component_survives(
    k: Set<CellId>,
    before: Set<CellId>,
    removed: Set<CellId>,
    after: Set<CellId>,
    x0: CellId,
)
    requires
        is_component(before, k),
        forall|c: CellId| #[trigger] after.contains(c) <==> before.contains(c) && !removed.contains(c),
        k.contains(x0),
        !removed.contains(x0),
        forall|d: CellId, r: CellId| k.contains(d) && !removed.contains(d) && k.contains(r) && removed.contains(r)
            && #[trigger] touching(d, r) ==> reachable(after, x0, d),
    ensures
        is_component(after, k.difference(removed)),
        k.difference(removed) == reach_set(after, x0),
{
    let c = reach_set(after, x0);
    assert(after.subset_of(before));
    assert(after.contains(x0));
    lemma_reach_set_component(after, x0);
    // The cells reachable from `x0` after the removal are remaining cells of `k`.
    assert forall|y: CellId| c.contains(y) implies k.contains(y) && !removed.contains(y) by {
        lemma_reachable_mono(after, before, x0, y);
        lemma_closed_contains_reachable(before, k, x0, y);
        lemma_reachable_ends(after, x0, y);
    }
    // Those cells, with the removed cells of `k`, are closed in the cells before the removal.
    let t = c.union(k.intersect(removed));
    assert forall|x: CellId, d: CellId| t.contains(x) && before.contains(d) && #[trigger] touching(x, d) implies t.contains(d) by {
        assert(k.contains(x));
        assert(k.contains(d));
        if !removed.contains(d) {
            assert(after.contains(d));
            if c.contains(x) {
                lemma_reachable_step(after, x0, x, d);
            } else {
                lemma_neighbors_symmetric(id_key(x), id_key(d));
                assert(touching(d, x));
            }
        }
    }
    assert forall|y: CellId| k.contains(y) && !removed.contains(y) implies c.contains(y) by {
        assert(reachable(before, x0, y));
        lemma_closed_contains_reachable(before, t, x0, y);
    }
    assert(k.difference(removed) =~= c);
}

/// If a component loses some of its cells, every remaining cell reaches a remaining cell that
/// touches a removed cell of the component.
pub proof fn lemma_component_boundary(
    k: Set<CellId>,
    before: Set<CellId>,
    removed: Set<CellId>,
    after: Set<CellId>,
    x: CellId,
    r0: CellId,
)
    requires
        is_component(before, k),
        forall|c: CellId| #[trigger] after.contains(c) <==> before.contains(c) && !removed.contains(c),
        k.contains(x),
        !removed.contains(x),
        k.contains(r0),
        removed.contains(r0),
    ensures
        exists|d: CellId, r: CellId| #![trigger touching(d, r)]
            reachable(after, x, d) && k.contains(d) && !removed.contains(d) && k.contains(r) && removed.contains(r)
            && touching(d, r),
{
    let c = reach_set(after, x);
    assert(after.contains(x));
    lemma_reach_set_component(after, x);
    if !exists|d: CellId, r: CellId| #![trigger touching(d, r)]
        reachable(after, x, d) && k.contains(d) && !removed.contains(d) && k.contains(r) && removed.contains(r)
        && touching(d, r) {
        assert forall|y: CellId, d: CellId| c.contains(y) && before.contains(d) && #[trigger] touching(y, d) implies c.contains(d) by {
            lemma_reachable_mono(after, before, x, y);
            lemma_closed_contains_reachable(before, k, x, y);
            lemma_reachable_ends(after, x, y);
            if removed.contains(d) {
                assert(k.contains(d));
                assert(touching(y, d));
            } else {
                lemma_reachable_step(after, x, y, d);
            }
        }
        assert(reachable(before, x, r0));
        lemma_closed_contains_reachable(before, c, x, r0);
        lemma_reachable_ends(after, x, r0);
    }
}

} // verus!
