//! The integer part of the camera's search for the nearest object: partitions ordered by their
//! distance, in cells, from the camera's cell. The search visits them nearest first and stops once
//! a partition is further than the best object found.

use vstd::prelude::*;
use crate::grid::cell::CellCoord;
use crate::partition::PartitionId;
use crate::partition::map::PartitionLookup;

verus! {

/// The offset, along one axis, from the camera coordinate `c` to the nearest coordinate of the
/// range `lo..=hi`: `c` clamped to the range (raised to `lo`, then lowered to `hi`), minus `c`,
/// with wrapping `i32` arithmetic.
pub open spec fn axis_gap(c: i32, lo: i32, hi: i32) -> i32 {
    let raised = if c < lo { lo } else { c };
    let clamped = if raised > hi { hi } else { raised };
    vstd::wrapping::i32_specs::wrapping_sub(clamped, c)
}

/// The squared distance, in cells, from the cell `cam` to the box of cells from `min` to `max`,
/// each coordinate taken as an `i32`.
pub open spec fn box_distance_sq(cam: CellCoord, min: CellCoord, max: CellCoord) -> int {
    let dx = axis_gap(cam.x as i32, min.x as i32, max.x as i32) as int;
    let dy = axis_gap(cam.y as i32, min.y as i32, max.y as i32) as int;
    let dz = axis_gap(cam.z as i32, min.z as i32, max.z as i32) as int;
    dx * dx + dy * dy + dz * dz
}

/// The offset along one axis; see [`axis_gap`].
fn gap(c: i32, lo: i32, hi: i32) -> (r: i32)
    ensures
        r == axis_gap(c, lo, hi),
{
    let raised = if c < lo { lo } else { c };
    let clamped = if raised > hi { hi } else { raised };
    clamped.wrapping_sub(c)
}

/// The squared distance from the cell `cam` to the box from `min` to `max`; see
/// [`box_distance_sq`].
pub fn cell_box_distance_sq(cam: &CellCoord, min: &CellCoord, max: &CellCoord) -> (r: u64)
    ensures
        r == box_distance_sq(*cam, *min, *max),
{
    let dx = gap(cam.x as i32, min.x as i32, max.x as i32) as i64;
    let dy = gap(cam.y as i32, min.y as i32, max.y as i32) as i64;
    let dz = gap(cam.z as i32, min.z as i32, max.z as i32) as i64;
    proof {
        assert(0 <= dx * dx <= 0x4000_0000_0000_0000) by (nonlinear_arith)
            requires -0x8000_0000 <= dx <= 0x7fff_ffff;
        assert(0 <= dy * dy <= 0x4000_0000_0000_0000) by (nonlinear_arith)
            requires -0x8000_0000 <= dy <= 0x7fff_ffff;
        assert(0 <= dz * dz <= 0x4000_0000_0000_0000) by (nonlinear_arith)
            requires -0x8000_0000 <= dz <= 0x7fff_ffff;
    }
    let sx = (dx * dx) as u64;
    let sy = (dy * dy) as u64;
    let sz = (dz * dz) as u64;
    sx + sy + sz
}

/// The partitions of `partitions` with their squared distance in cells from the cell `cam`,
/// nearest first. Partitions at the same distance come in no particular order.
pub fn partitions_nearest_first(partitions: &PartitionLookup, cam: &CellCoord) -> (r: Vec<(PartitionId, u64)>)
    ensures
        forall|i: int, j: int| 0 <= i < j < r@.len() ==> r@[i].0 != r@[j].0,
        forall|i: int, j: int| 0 <= i <= j < r@.len() ==> (#[trigger] r@[i]).1 <= (#[trigger] r@[j]).1,
        forall|i: int| 0 <= i < r@.len() ==> partitions.parts().contains_key((#[trigger] r@[i]).0)
            && r@[i].1 == box_distance_sq(*cam, partitions.parts()[r@[i].0].min_bound(),
                partitions.parts()[r@[i].0].max_bound()),
        forall|k: PartitionId| #[trigger] partitions.parts().contains_key(k) ==> exists|i: int| 0 <= i < r@.len() && r@[i].0 == k,
{
    let all = partitions.iter();
    let mut rest: Vec<(PartitionId, u64)> = Vec::new();
    let mut i: usize = 0;
    while i < all.len()
        invariant
            0 <= i <= all@.len(),
            rest@.len() == i,
            forall|a: int, b: int| 0 <= a < b < all@.len() ==> all@[a].0 != all@[b].0,
            forall|a: int| 0 <= a < all@.len() ==> partitions.parts().contains_key((#[trigger] all@[a]).0)
                && *all@[a].1 == partitions.parts()[all@[a].0],
            forall|a: int| 0 <= a < i ==> (#[trigger] rest@[a]).0 == all@[a].0
                && rest@[a].1 == box_distance_sq(*cam, partitions.parts()[all@[a].0].min_bound(),
                    partitions.parts()[all@[a].0].max_bound()),
        decreases all@.len() - i,
    {
        let (id, part) = all[i];
        let d = cell_box_distance_sq(cam, &part.min(), &part.max());
        rest.push((id, d));
        i += 1;
    }
    let ghost items = rest@;
    proof {
        assert forall|a: int, b: int| 0 <= a < b < items.len() implies items[a] != items[b] by {
            assert(items[a].0 == all@[a].0);
            assert(items[b].0 == all@[b].0);
        }
        assert(items.no_duplicates());
        items.lemma_multiset_has_no_duplicates();
    }
    let mut sorted: Vec<(PartitionId, u64)> = Vec::new();
    proof {
        sorted@.to_multiset_ensures();
        assert(rest@.to_multiset().add(sorted@.to_multiset()) =~= items.to_multiset());
    }
    while rest.len() > 0
        invariant
            rest@.to_multiset().add(sorted@.to_multiset()) == items.to_multiset(),
            forall|a: int, b: int| 0 <= a <= b < sorted@.len() ==> (#[trigger] sorted@[a]).1 <= (#[trigger] sorted@[b]).1,
            forall|a: int, b: int| 0 <= a < sorted@.len() && 0 <= b < rest@.len() ==> (#[trigger] sorted@[a]).1 <= (#[trigger] rest@[b]).1,
        decreases rest@.len(),
    {
        let mut best: usize = 0;
        let mut best_d: u64 = rest[0].1;
        let mut k: usize = 1;
        while k < rest.len()
            invariant
                1 <= k <= rest@.len(),
                best < k,
                best_d == rest@[best as int].1,
                forall|b: int| 0 <= b < k ==> best_d <= (#[trigger] rest@[b]).1,
            decreases rest@.len() - k,
        {
            if rest[k].1 < best_d {
                best = k;
                best_d = rest[k].1;
            }
            k += 1;
        }
        let ghost r0 = rest@;
        let ghost s0 = sorted@;
        let x = rest.remove(best);
        sorted.push(x);
        proof {
            r0.to_multiset_ensures();
            s0.to_multiset_ensures();
            assert(r0[best as int] == x);
            assert(r0.contains(x));
            assert(rest@.to_multiset() == r0.to_multiset().remove(x));
            assert(sorted@.to_multiset() == s0.to_multiset().insert(x));
            assert(rest@.to_multiset().add(sorted@.to_multiset()) =~= r0.to_multiset().add(s0.to_multiset()));
            assert forall|a: int, b: int| 0 <= a < sorted@.len() && 0 <= b < rest@.len() implies
                (#[trigger] sorted@[a]).1 <= (#[trigger] rest@[b]).1 by {
                let b0 = if b < best { b } else { b + 1 };
                assert(rest@[b] == r0[b0]);
            }
        }
    }
    proof {
        rest@.to_multiset_ensures();
        sorted@.to_multiset_ensures();
        items.to_multiset_ensures();
        assert(rest@.to_multiset() =~= vstd::multiset::Multiset::<(PartitionId, u64)>::empty());
        assert(sorted@.to_multiset() =~= items.to_multiset());
        sorted@.lemma_multiset_has_no_duplicates_conv();
        assert forall|a: int, b: int| 0 <= a < b < sorted@.len() implies sorted@[a].0 != sorted@[b].0 by {
            assert(sorted@.contains(sorted@[a]));
            assert(sorted@.contains(sorted@[b]));
            assert(items.to_multiset().count(sorted@[a]) > 0);
            assert(items.to_multiset().count(sorted@[b]) > 0);
            assert(items.contains(sorted@[a]));
            assert(items.contains(sorted@[b]));
            let a0 = choose|a0: int| 0 <= a0 < items.len() && items[a0] == sorted@[a];
            let b0 = choose|b0: int| 0 <= b0 < items.len() && items[b0] == sorted@[b];
            assert(sorted@[a] != sorted@[b]);
            assert(a0 != b0);
            assert(items[a0].0 == all@[a0].0);
            assert(items[b0].0 == all@[b0].0);
        }
        assert forall|a: int| 0 <= a < sorted@.len() implies partitions.parts().contains_key((#[trigger] sorted@[a]).0)
            && sorted@[a].1 == box_distance_sq(*cam, partitions.parts()[sorted@[a].0].min_bound(),
                partitions.parts()[sorted@[a].0].max_bound()) by {
            assert(sorted@.contains(sorted@[a]));
            assert(items.to_multiset().count(sorted@[a]) > 0);
            assert(items.contains(sorted@[a]));
            let a0 = choose|a0: int| 0 <= a0 < items.len() && items[a0] == sorted@[a];
            assert(items[a0].0 == all@[a0].0);
        }
        assert forall|k: PartitionId| #[trigger] partitions.parts().contains_key(k) implies
            exists|a: int| 0 <= a < sorted@.len() && sorted@[a].0 == k by {
            let a0 = choose|a0: int| 0 <= a0 < all@.len() && all@[a0].0 == k;
            assert(items[a0].0 == k);
            assert(items.contains(items[a0]));
            assert(sorted@.to_multiset().count(items[a0]) > 0);
            assert(sorted@.contains(items[a0]));
        }
    }
    sorted
}

/// Whether partition `k` of `partitions` lies in the grid `grid`.
pub open spec fn in_grid(partitions: &PartitionLookup, k: PartitionId, grid: u64) -> bool {
    partitions.parts().contains_key(k) && partitions.parts()[k].grid_bits() == grid
}

/// The at most `max` partitions of the grid `grid` nearest the cell `cam`, nearest first, each
/// with its squared distance in cells: every partition of the grid left out is at least as far
/// as every one kept, and fewer than `max` are kept only when the grid has no more.
pub fn nearest_partitions_in_grid(partitions: &PartitionLookup, cam: &CellCoord, grid: u64, max: usize)
    -> (r: Vec<(PartitionId, u64)>)
    ensures
        r@.len() <= max,
        forall|i: int, j: int| 0 <= i < j < r@.len() ==> r@[i].0 != r@[j].0,
        forall|i: int, j: int| 0 <= i <= j < r@.len() ==> (#[trigger] r@[i]).1 <= (#[trigger] r@[j]).1,
        forall|i: int| 0 <= i < r@.len() ==> in_grid(partitions, (#[trigger] r@[i]).0, grid)
            && r@[i].1 == box_distance_sq(*cam, partitions.parts()[r@[i].0].min_bound(),
                partitions.parts()[r@[i].0].max_bound()),
        forall|k: PartitionId| #[trigger] in_grid(partitions, k, grid) && !(exists|i: int| 0 <= i < r@.len() && r@[i].0 == k)
            ==> r@.len() == max && forall|i: int| 0 <= i < r@.len() ==> (#[trigger] r@[i]).1
                <= box_distance_sq(*cam, partitions.parts()[k].min_bound(), partitions.parts()[k].max_bound()),
{
    let sorted = partitions_nearest_first(partitions, cam);
    let mut out: Vec<(PartitionId, u64)> = Vec::new();
    let ghost mut idx: Seq<int> = Seq::empty();
    let mut i: usize = 0;
    while i < sorted.len() && out.len() < max
        invariant
            0 <= i <= sorted@.len(),
            out@.len() <= max,
            idx.len() == out@.len(),
            forall|o: int| 0 <= o < out@.len() ==> 0 <= #[trigger] idx[o] < i && out@[o] == sorted@[idx[o]],
            forall|o: int, q: int| 0 <= o < q < out@.len() ==> #[trigger] idx[o] < #[trigger] idx[q],
            forall|o: int| 0 <= o < out@.len() ==> in_grid(partitions, (#[trigger] out@[o]).0, grid),
            forall|a: int| 0 <= a < i && in_grid(partitions, (#[trigger] sorted@[a]).0, grid)
                ==> exists|o: int| 0 <= o < out@.len() && idx[o] == a,
        decreases sorted@.len() - i,
    {
        let (pid, d) = sorted[i];
        match partitions.resolve(&pid) {
            Some(p) => {
                if p.grid() == grid {
                    let ghost o0 = out@.len();
                    let ghost idx0 = idx;
                    out.push((pid, d));
                    proof {
                        idx = idx.push(i as int);
                        assert(idx[o0 as int] == i);
                        assert forall|a: int| 0 <= a < i + 1 && in_grid(partitions, (#[trigger] sorted@[a]).0, grid)
                            implies exists|o: int| 0 <= o < out@.len() && idx[o] == a by {
                            if a == i {
                                assert(idx[o0 as int] == a);
                            } else {
                                let o = choose|o: int| 0 <= o < o0 && idx0[o] == a;
                                assert(idx[o] == a);
                            }
                        }
                    }
                }
            }
            None => {}
        }
        i += 1;
    }
    proof {
        assert forall|o: int, q: int| 0 <= o < q < out@.len() implies out@[o].0 != out@[q].0 by {
            assert(idx[o] < idx[q]);
        }
        assert forall|o: int, q: int| 0 <= o <= q < out@.len() implies (#[trigger] out@[o]).1 <= (#[trigger] out@[q]).1 by {
            if o < q {
                assert(idx[o] < idx[q]);
                assert(sorted@[idx[o]].1 <= sorted@[idx[q]].1);
            }
        }
        assert forall|o: int| 0 <= o < out@.len() implies in_grid(partitions, (#[trigger] out@[o]).0, grid)
            && out@[o].1 == box_distance_sq(*cam, partitions.parts()[out@[o].0].min_bound(),
                partitions.parts()[out@[o].0].max_bound()) by {
            assert(0 <= idx[o] < sorted@.len());
            assert(out@[o] == sorted@[idx[o]]);
        }
        assert forall|k: PartitionId| #[trigger] in_grid(partitions, k, grid) && !(exists|o: int| 0 <= o < out@.len() && out@[o].0 == k)
            implies out@.len() == max && forall|o: int| 0 <= o < out@.len() ==> (#[trigger] out@[o]).1
                <= box_distance_sq(*cam, partitions.parts()[k].min_bound(), partitions.parts()[k].max_bound()) by {
            assert(partitions.parts().contains_key(k));
            let a = choose|a: int| 0 <= a < sorted@.len() && sorted@[a].0 == k;
            if a < i {
                let o = choose|o: int| 0 <= o < out@.len() && idx[o] == a;
                assert(out@[o].0 == k);
            }
            assert forall|o: int| 0 <= o < out@.len() implies (#[trigger] out@[o]).1
                <= box_distance_sq(*cam, partitions.parts()[k].min_bound(), partitions.parts()[k].max_bound()) by {
                assert(idx[o] < i);
                assert(sorted@[idx[o]].1 <= sorted@[a].1);
            }
        }
    }
    out
}

} // verus!
