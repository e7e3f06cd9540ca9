//! How a partition grows when new cells become occupied: the group of cells it grows into, and
//! when it keeps its identifier while new cells join it.

use vstd::prelude::*;
use crate::hash::component::{CellId, touching, id_key, lemma_neighbors_symmetric};
use crate::hash::map::{
    reachable, lemma_reachable_trans, lemma_reachable_mono, lemma_reachable_self, lemma_reachable_step,
    lemma_closed_contains_reachable,
};
use crate::partition::PartitionId;
use crate::partition::components::{merge_parts, is_component, are_components, touched_parts};

verus! {

/// The cells connected to a cell of `cells` among the `occupied` cells: the group that `cells`
/// grows into once new cells are occupied.
#[verifier::opaque]
pub open spec fn grown_group(occupied: Set<CellId>, cells: Set<CellId>) -> Set<CellId> {
    Set::new(|c: CellId| exists|a: CellId| #[trigger] cells.contains(a) && reachable(occupied, a, c))
}

/// Whether partition `id` of `parts` grows without meeting another partition when the cells
/// `new_cells` become occupied, `occupied` holding the old and the new cells: the group it grows
/// into holds no cell of another partition, and it holds at most one new cell, or fewer new cells
/// than the partition had.
pub open spec fn grows_alone(
    parts: Map<PartitionId, Set<CellId>>,
    id: PartitionId,
    occupied: Set<CellId>,
    new_cells: Set<CellId>,
) -> bool {
    let g = grown_group(occupied, parts[id]);
    let k = g.intersect(new_cells).len();
    &&& forall|j: PartitionId| #[trigger] parts.contains_key(j) && j != id ==> parts[j].disjoint(g)
    &&& k <= 1 || k < parts[id].len()
}

/// A grown group holds every occupied cell reachable from one of its cells.
pub proof fn lemma_grown_closed(occupied: Set<CellId>, cells: Set<CellId>, x: CellId, y: CellId)
    requires
        grown_group(occupied, cells).contains(x),
        reachable(occupied, x, y),
    ensures
        grown_group(occupied, cells).contains(y),
{
    reveal(grown_group);
    let a = choose|a: CellId| #[trigger] cells.contains(a) && reachable(occupied, a, x);
    lemma_reachable_trans(occupied, a, x, y);
}

/// A cell touching a cell of a grown group, itself occupied, is in the group.
pub proof fn lemma_grown_touch(occupied: Set<CellId>, cells: Set<CellId>, x: CellId, y: CellId)
    requires
        grown_group(occupied, cells).contains(x),
        occupied.contains(x),
        occupied.contains(y),
        touching(x, y),
    ensures
        grown_group(occupied, cells).contains(y),
{
    lemma_reachable_self(occupied, x);
    lemma_reachable_step(occupied, x, x, y);
    lemma_grown_closed(occupied, cells, x, y);
}

/// One step of adding new cells, seen from a partition that grows alone into the group `g` of
/// the cells `origin` it had: when the new cell `n` joins the parts it touches, the partition
/// keeps its identifier, it stays within `g` and keeps `origin`, and every other part that meets
/// `g` holds only new cells of `g` added so far (`done`, and now `n`). The bound on the new cells
/// of `g` makes any such part smaller than the partition, so it never wins a merge.
pub proof fn lemma_grow_step(
    cells0: Map<PartitionId, Set<CellId>>,
    n: CellId,
    touched: Set<PartitionId>,
    keep: PartitionId,
    id: PartitionId,
    origin: Set<CellId>,
    g: Set<CellId>,
    done: Set<CellId>,
    bound: int,
)
    requires
        forall|t: PartitionId| #[trigger] touched.contains(t) ==> cells0.contains_key(t)
            && cells0[t] != Set::<CellId>::empty() && (!cells0[t].disjoint(g) <==> g.contains(n)),
        touched.contains(keep) || (touched == Set::<PartitionId>::empty() && !cells0.contains_key(keep)),
        touched.contains(keep) ==> forall|j: PartitionId| #[trigger] touched.contains(j) ==>
            cells0[j].len() <= cells0[keep].len() + 1,
        cells0.contains_key(id),
        cells0[id].finite(),
        cells0[id] != Set::<CellId>::empty(),
        origin.subset_of(cells0[id]),
        cells0[id].subset_of(g),
        forall|j: PartitionId| #[trigger] cells0.contains_key(j) && j != id && !cells0[j].disjoint(g)
            ==> cells0[j].subset_of(g.intersect(done)),
        done.finite(),
        g.contains(n) ==> g.intersect(done).len() + 1 <= bound,
        bound <= 1 || bound < origin.len(),
    ensures
        merge_parts(cells0, touched, keep, n).contains_key(id),
        origin.subset_of(merge_parts(cells0, touched, keep, n)[id]),
        merge_parts(cells0, touched, keep, n)[id].subset_of(g),
        forall|j: PartitionId| #[trigger] merge_parts(cells0, touched, keep, n).contains_key(j) && j != id
            && !merge_parts(cells0, touched, keep, n)[j].disjoint(g)
            ==> merge_parts(cells0, touched, keep, n)[j].subset_of(g.intersect(done.insert(n))),
{
    let np = merge_parts(cells0, touched, keep, n);
    let gd = g.intersect(done);
    if touched.contains(id) {
        assert(!cells0[id].disjoint(g)) by {
            let x = choose|x: CellId| #[trigger] cells0[id].contains(x);
            assert(cells0[id].contains(x)) by {
                if !cells0[id].contains(x) {
                    assert(cells0[id] =~= Set::<CellId>::empty());
                }
            }
            assert(cells0[id].contains(x) && g.contains(x));
        }
        lemma_grow_keeps(cells0, touched, keep, id, origin, g, gd, bound);
        assert forall|c: CellId| np[id].contains(c) implies g.contains(c) by {
            if c != n {
                let j = choose|j: PartitionId| touched.contains(j) && cells0.contains_key(j) && #[trigger] cells0[j].contains(c);
                if j != id {
                    assert(cells0[j].subset_of(gd));
                }
            }
        }
        assert forall|c: CellId| origin.contains(c) implies np[id].contains(c) by {
            assert(cells0[id].contains(c));
        }
    } else {
        assert(keep != id);
    }
    assert forall|j: PartitionId| #[trigger] np.contains_key(j) && j != id && !np[j].disjoint(g)
        implies np[j].subset_of(g.intersect(done.insert(n))) by {
        if j != keep {
            assert(np[j] == cells0[j]);
            assert(cells0[j].subset_of(gd));
        } else {
            let c = choose|c: CellId| np[j].contains(c) && g.contains(c);
            if c != n {
                let t = choose|t: PartitionId| touched.contains(t) && cells0.contains_key(t) && #[trigger] cells0[t].contains(c);
                assert(!cells0[t].disjoint(g));
            }
            assert(g.contains(n));
            assert forall|e: CellId| np[j].contains(e) implies g.intersect(done.insert(n)).contains(e) by {
                if e != n {
                    let t = choose|t: PartitionId| touched.contains(t) && cells0.contains_key(t) && #[trigger] cells0[t].contains(e);
                    assert(!cells0[t].disjoint(g));
                    assert(t != id);
                    assert(cells0[t].subset_of(gd));
                }
            }
        }
    }
}

/// A part touching the new cell `n` meets the group grown from `origin` exactly when `n` is in
/// the group.
pub proof fn lemma_grow_touched(part: Set<CellId>, s0: Set<CellId>, full: Set<CellId>, n: CellId, origin: Set<CellId>)
    requires
        is_component(s0, part),
        s0.subset_of(full),
        full.contains(n),
        exists|c: CellId| #[trigger] part.contains(c) && touching(n, c),
    ensures
        !part.disjoint(grown_group(full, origin)) <==> grown_group(full, origin).contains(n),
{
    let g = grown_group(full, origin);
    let d = choose|d: CellId| #[trigger] part.contains(d) && touching(n, d);
    lemma_neighbors_symmetric(id_key(n), id_key(d));
    if !part.disjoint(g) {
        let x = choose|x: CellId| part.contains(x) && g.contains(x);
        assert(reachable(s0, x, d));
        lemma_reachable_mono(s0, full, x, d);
        lemma_grown_closed(full, origin, x, d);
        lemma_grown_touch(full, origin, d, n);
    }
    if g.contains(n) {
        lemma_grown_touch(full, origin, n, d);
        assert(part.contains(d) && g.contains(d));
    }
}

/// When the partition is among the parts the new cell joins, it is the one kept: any other part
/// meeting its group holds only new cells added so far, too few to match its size.
proof fn lemma_grow_keeps(
    cells0: Map<PartitionId, Set<CellId>>,
    touched: Set<PartitionId>,
    keep: PartitionId,
    id: PartitionId,
    origin: Set<CellId>,
    g: Set<CellId>,
    gd: Set<CellId>,
    bound: int,
)
    requires
        touched.contains(id),
        touched.contains(keep) || (touched == Set::<PartitionId>::empty() && !cells0.contains_key(keep)),
        touched.contains(keep) ==> forall|j: PartitionId| #[trigger] touched.contains(j) ==>
            cells0[j].len() <= cells0[keep].len() + 1,
        forall|t: PartitionId| #[trigger] touched.contains(t) ==> !cells0[t].disjoint(g),
        forall|t: PartitionId| #[trigger] touched.contains(t) ==> cells0[t] != Set::<CellId>::empty(),
        cells0[id].finite(),
        origin.subset_of(cells0[id]),
        forall|j: PartitionId| #[trigger] cells0.contains_key(j) && j != id && !cells0[j].disjoint(g)
            ==> cells0[j].subset_of(gd),
        forall|t: PartitionId| #[trigger] touched.contains(t) ==> cells0.contains_key(t),
        gd.finite(),
        gd.len() + 1 <= bound,
        bound <= 1 || bound < origin.len(),
    ensures
        keep == id,
{
    if keep != id {
        assert(touched.contains(keep));
        assert(cells0[keep].subset_of(gd));
        vstd::set_lib::lemma_len_subset(cells0[keep], gd);
        vstd::set_lib::lemma_len_subset(origin, cells0[id]);
        assert(cells0[id].len() <= cells0[keep].len() + 1);
        assert(cells0[keep].len() > 0) by {
            if cells0[keep].len() == 0 {
                assert(cells0[keep] =~= Set::<CellId>::empty());
            }
        }
    }
}

/// A set of occupied cells lies in the group it grows into.
pub proof fn lemma_grown_contains_origin(occupied: Set<CellId>, origin: Set<CellId>)
    requires
        origin.subset_of(occupied),
    ensures
        origin.subset_of(grown_group(occupied, origin)),
{
    reveal(grown_group);
    assert forall|a: CellId| origin.contains(a) implies grown_group(occupied, origin).contains(a) by {
        lemma_reachable_self(occupied, a);
    }
}

/// A component holding a non-empty `origin` and lying in the group grown from it is that group.
pub proof fn lemma_grown_is_component(occupied: Set<CellId>, origin: Set<CellId>, part: Set<CellId>)
    requires
        is_component(occupied, part),
        origin.subset_of(part),
        origin != Set::<CellId>::empty(),
        part.subset_of(grown_group(occupied, origin)),
    ensures
        part == grown_group(occupied, origin),
{
    reveal(grown_group);
    let g = grown_group(occupied, origin);
    assert forall|c: CellId| g.contains(c) implies part.contains(c) by {
        let a = choose|a: CellId| #[trigger] origin.contains(a) && reachable(occupied, a, c);
        lemma_closed_contains_reachable(occupied, part, a, c);
    }
    assert(part =~= g);
}

/// The parts that a new cell joins all hold cells, and each meets the group grown from `origin`
/// exactly when the new cell is in that group.
pub proof fn lemma_touched_meet(
    cells0: Map<PartitionId, Set<CellId>>,
    s0: Set<CellId>,
    full: Set<CellId>,
    n: CellId,
    touched: Set<PartitionId>,
    origin: Set<CellId>,
)
    requires
        are_components(cells0, s0),
        touched_parts(cells0, n, touched),
        s0.subset_of(full),
        full.contains(n),
    ensures
        forall|t: PartitionId| #[trigger] touched.contains(t) ==> cells0.contains_key(t)
            && cells0[t] != Set::<CellId>::empty()
            && (!cells0[t].disjoint(grown_group(full, origin)) <==> grown_group(full, origin).contains(n)),
{
    assert forall|t: PartitionId| #[trigger] touched.contains(t) implies cells0.contains_key(t)
        && cells0[t] != Set::<CellId>::empty()
        && (!cells0[t].disjoint(grown_group(full, origin)) <==> grown_group(full, origin).contains(n)) by {
        assert(is_component(s0, cells0[t]));
        lemma_grow_touched(cells0[t], s0, full, n, origin);
    }
}

/// Adding one new cell to a group counted so far keeps the count below the number of new cells of
/// the group.
pub proof fn lemma_count_step(g: Set<CellId>, done: Set<CellId>, all: Set<CellId>, n: CellId)
    requires
        done.subset_of(all),
        all.finite(),
        all.contains(n),
        !done.contains(n),
        g.contains(n),
    ensures
        g.intersect(done).finite(),
        g.intersect(done).len() + 1 <= g.intersect(all).len(),
{
    let a = g.intersect(done);
    vstd::set_lib::lemma_len_subset(a, all);
    assert(a.insert(n).subset_of(g.intersect(all)));
    vstd::set_lib::lemma_len_subset(a.insert(n), g.intersect(all));
    assert(a.insert(n).len() == a.len() + 1);
}

/// One step of `add_cells` seen from a partition with cells `origin` that grows alone into its
/// group: the facts of `lemma_grow_step`, gathered from the components before the step and from
/// what the new cell `n` joined.
pub proof fn lemma_grow_add(
    cells0: Map<PartitionId, Set<CellId>>,
    s0: Set<CellId>,
    full: Set<CellId>,
    newset: Set<CellId>,
    n: CellId,
    touched: Set<PartitionId>,
    keep: PartitionId,
    id: PartitionId,
    origin: Set<CellId>,
    done: Set<CellId>,
)
    requires
        are_components(cells0, s0),
        touched_parts(cells0, n, touched),
        s0.subset_of(full),
        full.contains(n),
        touched.contains(keep) || (touched == Set::<PartitionId>::empty() && !cells0.contains_key(keep)),
        touched.contains(keep) ==> exists|first: PartitionId| #[trigger] touched.contains(first)
            && forall|j: PartitionId| #[trigger] touched.contains(j) ==>
                cells0[j].len() + (if j == first { 1int } else { 0int })
                    <= cells0[keep].len() + (if keep == first { 1int } else { 0int }),
        forall|j: PartitionId| #[trigger] cells0.contains_key(j) ==> cells0[j].finite(),
        cells0.contains_key(id),
        origin.subset_of(cells0[id]),
        cells0[id].subset_of(grown_group(full, origin)),
        forall|j: PartitionId| #[trigger] cells0.contains_key(j) && j != id && !cells0[j].disjoint(grown_group(full, origin))
            ==> cells0[j].subset_of(grown_group(full, origin).intersect(done)),
        done.subset_of(newset),
        newset.finite(),
        newset.contains(n),
        !done.contains(n),
        grown_group(full, origin).intersect(newset).len() <= 1
            || grown_group(full, origin).intersect(newset).len() < origin.len(),
    ensures
        merge_parts(cells0, touched, keep, n).contains_key(id),
        origin.subset_of(merge_parts(cells0, touched, keep, n)[id]),
        merge_parts(cells0, touched, keep, n)[id].subset_of(grown_group(full, origin)),
        forall|j: PartitionId| #[trigger] merge_parts(cells0, touched, keep, n).contains_key(j) && j != id
            && !merge_parts(cells0, touched, keep, n)[j].disjoint(grown_group(full, origin))
            ==> merge_parts(cells0, touched, keep, n)[j].subset_of(grown_group(full, origin).intersect(done.insert(n))),
{
    let g = grown_group(full, origin);
    lemma_touched_meet(cells0, s0, full, n, touched, origin);
    if touched.contains(keep) {
        let first = choose|first: PartitionId| #[trigger] touched.contains(first)
            && forall|j: PartitionId| #[trigger] touched.contains(j) ==>
                cells0[j].len() + (if j == first { 1int } else { 0int })
                    <= cells0[keep].len() + (if keep == first { 1int } else { 0int });
        assert forall|j: PartitionId| #[trigger] touched.contains(j) implies cells0[j].len() <= cells0[keep].len() + 1 by {
        }
    }
    vstd::set_lib::lemma_len_subset(done, newset);
    if g.contains(n) {
        lemma_count_step(g, done, newset, n);
    }
    assert(is_component(s0, cells0[id]));
    lemma_grow_step(cells0, n, touched, keep, id, origin, g, done, g.intersect(newset).len() as int);
}

/// The state while new cells are added one by one, `done` holding those added so far, for each
/// partition of `start` that grows alone into its group: it keeps its identifier and its cells
/// of `start`, stays within its group, and every other part meeting its group holds only new
/// cells of the group added so far.
#[verifier::opaque]
pub open spec fn growing_alone(
    cur: Map<PartitionId, Set<CellId>>,
    start: Map<PartitionId, Set<CellId>>,
    full: Set<CellId>,
    newset: Set<CellId>,
    done: Set<CellId>,
) -> bool {
    forall|id: PartitionId| #[trigger] start.contains_key(id) && grows_alone(start, id, full, newset) ==> {
        &&& cur.contains_key(id)
        &&& start[id].subset_of(cur[id])
        &&& cur[id].subset_of(grown_group(full, start[id]))
        &&& forall|j: PartitionId| #[trigger] cur.contains_key(j) && j != id
            && !cur[j].disjoint(grown_group(full, start[id]))
            ==> cur[j].subset_of(grown_group(full, start[id]).intersect(done))
    }
}

/// Before any new cell is added, every partition that grows alone is as it was.
pub proof fn lemma_growing_init(
    start: Map<PartitionId, Set<CellId>>,
    base: Set<CellId>,
    full: Set<CellId>,
    newset: Set<CellId>,
)
    requires
        are_components(start, base),
        base.subset_of(full),
    ensures
        growing_alone(start, start, full, newset, Set::<CellId>::empty()),
{
    reveal(growing_alone);
    assert forall|id: PartitionId| #[trigger] start.contains_key(id) && grows_alone(start, id, full, newset) implies {
        &&& start.contains_key(id)
        &&& start[id].subset_of(start[id])
        &&& start[id].subset_of(grown_group(full, start[id]))
        &&& forall|j: PartitionId| #[trigger] start.contains_key(j) && j != id
            && !start[j].disjoint(grown_group(full, start[id]))
            ==> start[j].subset_of(grown_group(full, start[id]).intersect(Set::<CellId>::empty()))
    } by {
        assert(is_component(base, start[id]));
        lemma_grown_contains_origin(full, start[id]);
    }
}

/// Adding the new cell `n` keeps the state of the partitions that grow alone.
pub proof fn lemma_growing_step(
    cells0: Map<PartitionId, Set<CellId>>,
    s0: Set<CellId>,
    start: Map<PartitionId, Set<CellId>>,
    full: Set<CellId>,
    newset: Set<CellId>,
    done: Set<CellId>,
    n: CellId,
    touched: Set<PartitionId>,
    keep: PartitionId,
)
    requires
        growing_alone(cells0, start, full, newset, done),
        are_components(cells0, s0),
        touched_parts(cells0, n, touched),
        s0.subset_of(full),
        full.contains(n),
        touched.contains(keep) || (touched == Set::<PartitionId>::empty() && !cells0.contains_key(keep)),
        touched.contains(keep) ==> exists|first: PartitionId| #[trigger] touched.contains(first)
            && forall|j: PartitionId| #[trigger] touched.contains(j) ==>
                cells0[j].len() + (if j == first { 1int } else { 0int })
                    <= cells0[keep].len() + (if keep == first { 1int } else { 0int }),
        forall|j: PartitionId| #[trigger] cells0.contains_key(j) ==> cells0[j].finite(),
        done.subset_of(newset),
        newset.finite(),
        newset.contains(n),
        !done.contains(n),
    ensures
        growing_alone(merge_parts(cells0, touched, keep, n), start, full, newset, done.insert(n)),
{
    reveal(growing_alone);
    let np = merge_parts(cells0, touched, keep, n);
    assert forall|id: PartitionId| #[trigger] start.contains_key(id) && grows_alone(start, id, full, newset) implies {
        &&& np.contains_key(id)
        &&& start[id].subset_of(np[id])
        &&& np[id].subset_of(grown_group(full, start[id]))
        &&& forall|j: PartitionId| #[trigger] np.contains_key(j) && j != id
            && !np[j].disjoint(grown_group(full, start[id]))
            ==> np[j].subset_of(grown_group(full, start[id]).intersect(done.insert(n)))
    } by {
        lemma_grow_add(cells0, s0, full, newset, n, touched, keep, id, start[id], done);
    }
}

/// Once all new cells are added, a partition that grows alone holds exactly its group.
pub proof fn lemma_growing_end(
    cur: Map<PartitionId, Set<CellId>>,
    start: Map<PartitionId, Set<CellId>>,
    base: Set<CellId>,
    full: Set<CellId>,
    newset: Set<CellId>,
    done: Set<CellId>,
)
    requires
        growing_alone(cur, start, full, newset, done),
        are_components(cur, full),
        are_components(start, base),
    ensures
        forall|id: PartitionId| #[trigger] start.contains_key(id) && grows_alone(start, id, full, newset)
            ==> cur.contains_key(id) && cur[id] == grown_group(full, start[id]),
{
    reveal(growing_alone);
    assert forall|id: PartitionId| #[trigger] start.contains_key(id) && grows_alone(start, id, full, newset)
        implies cur.contains_key(id) && cur[id] == grown_group(full, start[id]) by {
        assert(is_component(base, start[id]));
        assert(is_component(full, cur[id]));
        lemma_grown_is_component(full, start[id], cur[id]);
    }
}

} // verus!
