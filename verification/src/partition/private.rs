//! The [`Partition`] type. Its fields are private so that its invariants are upheld.

use vstd::prelude::*;
use crate::collections::{
    CellHashSet, cell_set, cell_set_contains, cell_set_extend, cell_set_insert, cell_set_is_empty,
    cell_set_len, cell_set_new, cell_set_remove, cell_set_to_vec,
};
use crate::grid::cell::{CellCoord, cell_max, cell_min};
use crate::hash::component::CellId;

verus! {

/// The cells held by a list of tables.
pub open spec fn tables_union(tables: Seq<CellHashSet>) -> Set<CellId>
    decreases tables.len(),
{
    if tables.len() == 0 {
        Set::empty()
    } else {
        tables_union(tables.drop_last()).union(cell_set(tables.last()))
    }
}

/// The sum of the sizes of a list of tables.
pub open spec fn tables_len(tables: Seq<CellHashSet>) -> int
    decreases tables.len(),
{
    if tables.len() == 0 {
        0
    } else {
        tables_len(tables.drop_last()) + cell_set(tables.last()).len()
    }
}

/// Whether each table of a list is finite and not empty, and no two tables share a cell.
pub open spec fn tables_wf(tables: Seq<CellHashSet>) -> bool {
    &&& forall|i: int| 0 <= i < tables.len() ==> cell_set(#[trigger] tables[i]).finite()
        && cell_set(tables[i]) != Set::<CellId>::empty()
    &&& forall|i: int, j: int| 0 <= i < tables.len() && 0 <= j < tables.len() && i != j
        ==> cell_set(#[trigger] tables[i]).disjoint(cell_set(#[trigger] tables[j]))
}

/// Whether `m` is the component-wise minimum of the coordinates of the cells of `s`, each
/// component reached by some cell.
pub open spec fn is_min_of(s: Set<CellId>, m: CellCoord) -> bool {
    &&& forall|c: CellId| #[trigger] s.contains(c) ==> m.x <= c.cell().x && m.y <= c.cell().y && m.z <= c.cell().z
    &&& exists|c: CellId| #[trigger] s.contains(c) && c.cell().x == m.x
    &&& exists|c: CellId| #[trigger] s.contains(c) && c.cell().y == m.y
    &&& exists|c: CellId| #[trigger] s.contains(c) && c.cell().z == m.z
}

/// Whether `m` is the component-wise maximum of the coordinates of the cells of `s`, each
/// component reached by some cell.
pub open spec fn is_max_of(s: Set<CellId>, m: CellCoord) -> bool {
    &&& forall|c: CellId| #[trigger] s.contains(c) ==> m.x >= c.cell().x && m.y >= c.cell().y && m.z >= c.cell().z
    &&& exists|c: CellId| #[trigger] s.contains(c) && c.cell().x == m.x
    &&& exists|c: CellId| #[trigger] s.contains(c) && c.cell().y == m.y
    &&& exists|c: CellId| #[trigger] s.contains(c) && c.cell().z == m.z
}

/// Whether the cell `c` lies on the plane of `m` along some axis.
pub open spec fn on_bound(c: CellCoord, m: CellCoord) -> bool {
    m.x == c.x || m.y == c.y || m.z == c.z
}

/// The coordinate that the minimum bound takes when the last cell of a partition is removed.
pub open spec fn empty_min_bound() -> CellCoord {
    CellCoord { x: 10_000_000_000, y: 10_000_000_000, z: 10_000_000_000 }
}

/// The coordinate that the maximum bound takes when the last cell of a partition is removed.
pub open spec fn empty_max_bound() -> CellCoord {
    CellCoord { x: -10_000_000_000i64, y: -10_000_000_000i64, z: -10_000_000_000i64 }
}

/// A cell is in the union of a list of tables exactly when some table holds it.
pub proof fn lemma_tables_union_contains(tables: Seq<CellHashSet>, c: CellId)
    ensures
        tables_union(tables).contains(c) <==> exists|i: int| 0 <= i < tables.len() && #[trigger] cell_set(tables[i]).contains(c),
    decreases tables.len(),
{
    if tables.len() > 0 {
        let init = tables.drop_last();
        lemma_tables_union_contains(init, c);
        if tables_union(tables).contains(c) {
            if cell_set(tables.last()).contains(c) {
                assert(cell_set(tables[tables.len() - 1]).contains(c));
            } else {
                let i = choose|i: int| 0 <= i < init.len() && #[trigger] cell_set(init[i]).contains(c);
                assert(tables[i] == init[i]);
            }
        }
        if exists|i: int| 0 <= i < tables.len() && #[trigger] cell_set(tables[i]).contains(c) {
            let i = choose|i: int| 0 <= i < tables.len() && #[trigger] cell_set(tables[i]).contains(c);
            if i < tables.len() - 1 {
                assert(init[i] == tables[i]);
                assert(cell_set(init[i]).contains(c));
            }
        }
    }
}

/// The union of a list of finite, pairwise disjoint tables is finite, and its size is the sum of
/// their sizes.
pub proof fn lemma_tables_len(tables: Seq<CellHashSet>)
    requires
        forall|i: int| 0 <= i < tables.len() ==> cell_set(#[trigger] tables[i]).finite(),
        forall|i: int, j: int| 0 <= i < tables.len() && 0 <= j < tables.len() && i != j
            ==> cell_set(#[trigger] tables[i]).disjoint(cell_set(#[trigger] tables[j])),
    ensures
        tables_union(tables).finite(),
        tables_len(tables) == tables_union(tables).len(),
    decreases tables.len(),
{
    if tables.len() > 0 {
        let init = tables.drop_last();
        let last = tables.last();
        assert forall|i: int| 0 <= i < init.len() implies cell_set(#[trigger] init[i]).finite() by {
            assert(init[i] == tables[i]);
        }
        assert forall|i: int, j: int| 0 <= i < init.len() && 0 <= j < init.len() && i != j
            implies cell_set(#[trigger] init[i]).disjoint(cell_set(#[trigger] init[j])) by {
            assert(init[i] == tables[i] && init[j] == tables[j]);
        }
        lemma_tables_len(init);
        assert(cell_set(tables[tables.len() - 1]).finite());
        assert(tables_union(init).disjoint(cell_set(last))) by {
            assert forall|c: CellId| tables_union(init).contains(c) implies !cell_set(last).contains(c) by {
                lemma_tables_union_contains(init, c);
                let i = choose|i: int| 0 <= i < init.len() && #[trigger] cell_set(init[i]).contains(c);
                assert(init[i] == tables[i]);
                assert(cell_set(tables[i]).disjoint(cell_set(tables[tables.len() - 1])));
            }
        }
        vstd::set_lib::lemma_set_disjoint_lens(tables_union(init), cell_set(last));
    }
}

/// The sum of the sizes of the first `i` tables is at most that of the first `j`.
proof fn lemma_tables_len_prefix(tables: Seq<CellHashSet>, i: int, j: int)
    requires
        0 <= i <= j <= tables.len(),
    ensures
        tables_len(tables.take(i)) <= tables_len(tables.take(j)),
    decreases j - i,
{
    if i < j {
        lemma_tables_len_prefix(tables, i, j - 1);
        assert(tables.take(j).drop_last() == tables.take(j - 1));
    }
}

/// The smaller of the minimum bounds of two sets is the minimum bound of their union.
pub proof fn lemma_min_union(s1: Set<CellId>, m1: CellCoord, s2: Set<CellId>, m2: CellCoord)
    requires
        is_min_of(s1, m1),
        is_min_of(s2, m2),
    ensures
        is_min_of(s1.union(s2), cell_min(m1, m2)),
{
    let s = s1.union(s2);
    let m = cell_min(m1, m2);
    let ax = choose|c: CellId| #[trigger] s1.contains(c) && c.cell().x == m1.x;
    let bx = choose|c: CellId| #[trigger] s2.contains(c) && c.cell().x == m2.x;
    let ay = choose|c: CellId| #[trigger] s1.contains(c) && c.cell().y == m1.y;
    let by = choose|c: CellId| #[trigger] s2.contains(c) && c.cell().y == m2.y;
    let az = choose|c: CellId| #[trigger] s1.contains(c) && c.cell().z == m1.z;
    let bz = choose|c: CellId| #[trigger] s2.contains(c) && c.cell().z == m2.z;
    assert(s.contains(ax) && s.contains(bx) && s.contains(ay) && s.contains(by) && s.contains(az) && s.contains(bz));
    assert forall|c: CellId| #[trigger] s.contains(c) implies m.x <= c.cell().x && m.y <= c.cell().y && m.z <= c.cell().z by {
        if s1.contains(c) {} else {}
    }
}

/// The larger of the maximum bounds of two sets is the maximum bound of their union.
pub proof fn lemma_max_union(s1: Set<CellId>, m1: CellCoord, s2: Set<CellId>, m2: CellCoord)
    requires
        is_max_of(s1, m1),
        is_max_of(s2, m2),
    ensures
        is_max_of(s1.union(s2), cell_max(m1, m2)),
{
    let s = s1.union(s2);
    let m = cell_max(m1, m2);
    let ax = choose|c: CellId| #[trigger] s1.contains(c) && c.cell().x == m1.x;
    let bx = choose|c: CellId| #[trigger] s2.contains(c) && c.cell().x == m2.x;
    let ay = choose|c: CellId| #[trigger] s1.contains(c) && c.cell().y == m1.y;
    let by = choose|c: CellId| #[trigger] s2.contains(c) && c.cell().y == m2.y;
    let az = choose|c: CellId| #[trigger] s1.contains(c) && c.cell().z == m1.z;
    let bz = choose|c: CellId| #[trigger] s2.contains(c) && c.cell().z == m2.z;
    assert(s.contains(ax) && s.contains(bx) && s.contains(ay) && s.contains(by) && s.contains(az) && s.contains(bz));
    assert forall|c: CellId| #[trigger] s.contains(c) implies m.x >= c.cell().x && m.y >= c.cell().y && m.z >= c.cell().z by {
        if s1.contains(c) {} else {}
    }
}

/// A single cell bounds itself.
pub proof fn lemma_bounds_single(c: CellId)
    ensures
        is_min_of(set![c], c.cell()),
        is_max_of(set![c], c.cell()),
{
    assert(set![c].contains(c));
}

/// Removing a cell off the planes of a bound keeps the bound.
pub proof fn lemma_bounds_remove(s: Set<CellId>, min: CellCoord, max: CellCoord, c: CellId)
    ensures
        is_min_of(s, min) && !on_bound(c.cell(), min) ==> is_min_of(s.remove(c), min),
        is_max_of(s, max) && !on_bound(c.cell(), max) ==> is_max_of(s.remove(c), max),
{
    let r = s.remove(c);
    if is_min_of(s, min) && !on_bound(c.cell(), min) {
        let ax = choose|w: CellId| #[trigger] s.contains(w) && w.cell().x == min.x;
        let ay = choose|w: CellId| #[trigger] s.contains(w) && w.cell().y == min.y;
        let az = choose|w: CellId| #[trigger] s.contains(w) && w.cell().z == min.z;
        assert(r.contains(ax) && r.contains(ay) && r.contains(az));
    }
    if is_max_of(s, max) && !on_bound(c.cell(), max) {
        let ax = choose|w: CellId| #[trigger] s.contains(w) && w.cell().x == max.x;
        let ay = choose|w: CellId| #[trigger] s.contains(w) && w.cell().y == max.y;
        let az = choose|w: CellId| #[trigger] s.contains(w) && w.cell().z == max.z;
        assert(r.contains(ax) && r.contains(ay) && r.contains(az));
    }
}

/// Tables smaller than this are drained into an existing table when partitions are merged; larger
/// ones are moved into the list of tables. This keeps partitions from ending up with many tables
/// of a few cells each, while avoiding the cost of draining large tables.
const MIN_TABLE_SIZE: usize = 20_000;

/// A group of nearby grid cells within the same grid, disconnected from all other cells of that
/// grid. Found through a [`PartitionLookup`](crate::partition::map::PartitionLookup).
pub struct Partition {
    grid: u64,
    tables: Vec<CellHashSet>,
    min: CellCoord,
    max: CellCoord,
}

impl Partition {
    /// The cells of this partition.
    pub closed spec fn cells(&self) -> Set<CellId> {
        tables_union(self.tables@)
    }

    /// The bits of the grid entity this partition resides in.
    pub closed spec fn grid_bits(&self) -> u64 {
        self.grid
    }

    /// The stored minimum bound.
    pub closed spec fn min_bound(&self) -> CellCoord {
        self.min
    }

    /// The stored maximum bound.
    pub closed spec fn max_bound(&self) -> CellCoord {
        self.max
    }

    /// The tables of this partition hold its cells once each, and none is empty.
    pub closed spec fn wf(&self) -> bool {
        tables_wf(self.tables@)
    }

    /// The stored bounds are exactly the component-wise extremes of the cells, which requires
    /// at least one cell.
    pub closed spec fn bounds_exact(&self) -> bool {
        is_min_of(self.cells(), self.min_bound()) && is_max_of(self.cells(), self.max_bound())
    }

    /// What exact bounds mean: the stored bounds are the component-wise extremes of the cells.
    pub proof fn lemma_bounds_exact(&self)
        ensures
            self.bounds_exact() <==> is_min_of(self.cells(), self.min_bound()) && is_max_of(self.cells(), self.max_bound()),
    {
    }

    /// A partition with exact bounds holds at least one cell.
    pub proof fn lemma_bounds_nonempty(&self)
        requires
            self.bounds_exact(),
        ensures
            self.cells() != Set::<CellId>::empty(),
    {
        let w = choose|w: CellId| #[trigger] self.cells().contains(w) && w.cell().x == self.min_bound().x;
        assert(self.cells().contains(w));
    }

    /// A well-formed partition holds finitely many cells.
    pub proof fn lemma_wf(&self)
        requires
            self.wf(),
        ensures
            self.cells().finite(),
    {
        lemma_tables_len(self.tables@);
    }

    /// Returns `true` if the cell `hash` is in this partition.
    pub fn contains(&self, hash: &CellId) -> (r: bool)
        ensures
            r == self.cells().contains(*hash),
    {
        proof {
            lemma_tables_union_contains(self.tables@, *hash);
        }
        let mut i: usize = 0;
        while i < self.tables.len()
            invariant
                0 <= i <= self.tables@.len(),
                forall|k: int| 0 <= k < i ==> !cell_set(#[trigger] self.tables@[k]).contains(*hash),
            decreases self.tables@.len() - i,
        {
            if cell_set_contains(&self.tables[i], hash) {
                proof {
                    assert(cell_set(self.tables@[i as int]).contains(*hash));
                    lemma_tables_union_contains(self.tables@, *hash);
                }
                return true;
            }
            i += 1;
        }
        false
    }

    /// All cells of this partition, table after table.
    pub fn iter(&self) -> (r: Vec<CellId>)
        ensures
            r@.to_set() == self.cells(),
            self.wf() ==> r@.no_duplicates(),
    {
        let mut out: Vec<CellId> = Vec::new();
        let mut i: usize = 0;
        while i < self.tables.len()
            invariant
                0 <= i <= self.tables@.len(),
                out@.to_set() == tables_union(self.tables@.take(i as int)),
                self.wf() ==> out@.no_duplicates(),
            decreases self.tables@.len() - i,
        {
            let ghost prev = out@;
            let mut part = cell_set_to_vec(&self.tables[i]);
            let ghost p = part@;
            out.append(&mut part);
            proof {
                let t = self.tables@.take(i as int + 1);
                assert(t.drop_last() == self.tables@.take(i as int));
                assert(t.last() == self.tables@[i as int]);
                assert(out@ == prev + p);
                assert(out@.to_set() == prev.to_set().union(p.to_set())) by {
                    assert forall|c: CellId| out@.to_set().contains(c) <==> prev.to_set().union(p.to_set()).contains(c) by {
                        if out@.contains(c) {
                            let k = choose|k: int| 0 <= k < out@.len() && out@[k] == c;
                            if k < prev.len() {
                                assert(prev[k] == c);
                            } else {
                                assert(p[k - prev.len()] == c);
                            }
                        }
                        if prev.contains(c) {
                            let k = choose|k: int| 0 <= k < prev.len() && prev[k] == c;
                            assert(out@[k] == c);
                        }
                        if p.contains(c) {
                            let k = choose|k: int| 0 <= k < p.len() && p[k] == c;
                            assert(out@[prev.len() + k] == c);
                        }
                    }
                }
                if self.wf() {
                    assert forall|a: int, b: int| 0 <= a < prev.len() && 0 <= b < p.len() implies prev[a] != p[b] by {
                        let c = prev[a];
                        assert(prev.to_set().contains(c));
                        lemma_tables_union_contains(self.tables@.take(i as int), c);
                        if c == p[b] {
                            assert(p.to_set().contains(c));
                            let k = choose|k: int| 0 <= k < i && #[trigger] cell_set(self.tables@.take(i as int)[k]).contains(c);
                            assert(self.tables@.take(i as int)[k] == self.tables@[k]);
                            assert(cell_set(self.tables@[k]).disjoint(cell_set(self.tables@[i as int])));
                        }
                    }
                    vstd::seq_lib::lemma_no_dup_in_concat(prev, p);
                }
            }
            i += 1;
        }
        proof {
            assert(self.tables@.take(self.tables@.len() as int) == self.tables@);
        }
        out
    }

    /// Returns the total number of cells in this partition.
    pub fn num_cells(&self) -> (r: usize)
        requires
            self.wf(),
            self.cells().len() <= usize::MAX,
        ensures
            r == self.cells().len(),
    {
        proof {
            lemma_tables_len(self.tables@);
            assert(self.tables@.take(self.tables@.len() as int) == self.tables@);
        }
        let mut sum: usize = 0;
        let mut i: usize = 0;
        while i < self.tables.len()
            invariant
                0 <= i <= self.tables@.len(),
                sum == tables_len(self.tables@.take(i as int)),
                tables_len(self.tables@) <= usize::MAX,
                self.tables@.take(self.tables@.len() as int) == self.tables@,
            decreases self.tables@.len() - i,
        {
            let n = cell_set_len(&self.tables[i]);
            proof {
                let t = self.tables@.take(i as int + 1);
                assert(t.drop_last() == self.tables@.take(i as int));
                assert(t.last() == self.tables@[i as int]);
                lemma_tables_len_prefix(self.tables@, i as int + 1, self.tables@.len() as int);
            }
            sum = sum + n;
            i += 1;
        }
        sum
    }

    /// The bits of the grid entity this partition resides in.
    pub fn grid(&self) -> (r: u64)
        ensures
            r == self.grid_bits(),
    {
        self.grid
    }

    /// The maximum grid cell extent of the partition.
    pub fn max(&self) -> (r: CellCoord)
        ensures
            r == self.max_bound(),
    {
        self.max
    }

    /// The minimum grid cell extent of the partition.
    pub fn min(&self) -> (r: CellCoord)
        ensures
            r == self.min_bound(),
    {
        self.min
    }

    /// Returns `true` if the partition holds no cell.
    pub fn is_empty(&self) -> (r: bool)
        ensures
            self.wf() ==> (r <==> self.cells() == Set::<CellId>::empty()),
    {
        proof {
            if self.wf() && self.tables@.len() > 0 {
                let t0 = cell_set(self.tables@[0]);
                assert(exists|a: CellId| t0.contains(a)) by {
                    if !exists|a: CellId| t0.contains(a) {
                        assert(t0 =~= Set::<CellId>::empty());
                    }
                }
                let c = t0.choose();
                assert(cell_set(self.tables@[0]).contains(c));
                lemma_tables_union_contains(self.tables@, c);
            }
        }
        self.tables.len() == 0
    }

    /// Builds a partition from one set of cells and its bounds.
    pub(crate) fn new(grid: u64, table: CellHashSet, min: CellCoord, max: CellCoord) -> (r: Self)
        requires
            cell_set(table).finite(),
            cell_set(table) != Set::<CellId>::empty(),
        ensures
            r.wf(),
            r.cells() == cell_set(table),
            r.grid_bits() == grid,
            r.min_bound() == min,
            r.max_bound() == max,
    {
        let mut tables: Vec<CellHashSet> = Vec::new();
        tables.push(table);
        let r = Partition { grid, tables, min, max };
        proof {
            assert(r.tables@.drop_last() =~= Seq::<CellHashSet>::empty());
            assert(r.tables@.last() == table);
            assert(tables_union(r.tables@.drop_last()) == Set::<CellId>::empty());
            assert(r.cells() =~= cell_set(table));
        }
        r
    }

    /// The index of the first of the smallest tables, if there is any table.
    fn smallest_table(&self) -> (r: Option<usize>)
        ensures
            r is None <==> self.tables@.len() == 0,
            r matches Some(i) ==> i < self.tables@.len()
                && (forall|j: int| 0 <= j < self.tables@.len() ==> cell_set(self.tables@[i as int]).len() <= cell_set(#[trigger] self.tables@[j]).len())
                && (forall|j: int| 0 <= j < i ==> cell_set(self.tables@[i as int]).len() < cell_set(#[trigger] self.tables@[j]).len()),
    {
        if self.tables.len() == 0 {
            return None;
        }
        let mut best: usize = 0;
        let mut best_len: usize = cell_set_len(&self.tables[0]);
        let mut i: usize = 1;
        while i < self.tables.len()
            invariant
                1 <= i <= self.tables@.len(),
                best < i,
                best_len == cell_set(self.tables@[best as int]).len(),
                forall|j: int| 0 <= j < i ==> best_len <= cell_set(#[trigger] self.tables@[j]).len(),
                forall|j: int| 0 <= j < best ==> best_len < cell_set(#[trigger] self.tables@[j]).len(),
            decreases self.tables@.len() - i,
        {
            let n = cell_set_len(&self.tables[i]);
            if n < best_len {
                best = i;
                best_len = n;
            }
            i += 1;
        }
        Some(best)
    }

    /// Adds `cell` to the table that is smallest, or to a new table if there is none, and widens
    /// the bounds to include it. Nothing changes if the partition already holds the cell.
    pub(crate) fn insert(&mut self, cell: CellId)
        requires
            old(self).wf(),
        ensures
            final(self).wf(),
            final(self).cells() == old(self).cells().insert(cell),
            final(self).grid_bits() == old(self).grid_bits(),
            old(self).cells().contains(cell) ==> *final(self) == *old(self),
            !old(self).cells().contains(cell) ==> final(self).min_bound() == cell_min(old(self).min_bound(), cell.cell())
                && final(self).max_bound() == cell_max(old(self).max_bound(), cell.cell()),
            old(self).bounds_exact() ==> final(self).bounds_exact(),
    {
        if self.contains(&cell) {
            proof {
                assert(old(self).cells().insert(cell) =~= old(self).cells());
            }
            return;
        }
        let ghost tables0 = self.tables@;
        match self.smallest_table() {
            Some(i) => {
                let mut table = self.tables.remove(i);
                cell_set_insert(&mut table, cell);
                self.tables.insert(i, table);
                proof {
                    let t = self.tables@;
                    assert(t =~= tables0.update(i as int, table));
                    assert(cell_set(table) == cell_set(tables0[i as int]).union(set![cell]));
                    lemma_tables_replace(tables0, t, i as int, set![cell]);
                    assert(tables_union(tables0).union(set![cell]) =~= tables_union(tables0).insert(cell));
                }
            }
            None => {
                let mut table = cell_set_new();
                cell_set_insert(&mut table, cell);
                self.tables.push(table);
                proof {
                    assert(self.tables@.drop_last() == tables0);
                    assert(cell_set(table) == Set::<CellId>::empty().insert(cell));
                    assert(tables0.len() == 0);
                    assert(tables_union(tables0) == Set::<CellId>::empty());
                    assert(self.cells() =~= old(self).cells().insert(cell));
                    assert(cell_set(table).contains(cell));
                    assert(cell_set(table).finite());
                }
            }
        }
        let coord = cell.coord();
        self.min = self.min.min(coord);
        self.max = self.max.max(coord);
        proof {
            if old(self).bounds_exact() {
                lemma_bounds_single(cell);
                lemma_min_union(old(self).cells(), old(self).min_bound(), set![cell], cell.cell());
                lemma_max_union(old(self).cells(), old(self).max_bound(), set![cell], cell.cell());
                assert(old(self).cells().union(set![cell]) =~= old(self).cells().insert(cell));
            }
        }
    }

    /// Moves the cells of `other`, a partition of the same grid that shares no cell with this
    /// one, into this partition, and widens the bounds to include those of `other`.
    pub(crate) fn extend(&mut self, other: Partition)
        requires
            old(self).wf(),
            other.wf(),
            old(self).grid_bits() == other.grid_bits(),
            old(self).cells().disjoint(other.cells()),
        ensures
            final(self).wf(),
            final(self).cells() == old(self).cells().union(other.cells()),
            final(self).grid_bits() == old(self).grid_bits(),
            final(self).min_bound() == cell_min(old(self).min_bound(), other.min_bound()),
            final(self).max_bound() == cell_max(old(self).max_bound(), other.max_bound()),
            old(self).bounds_exact() && other.bounds_exact() ==> final(self).bounds_exact(),
    {
        let Partition { grid: _, tables: other_tables, min: other_min, max: other_max } = other;
        let ghost rest0 = other_tables@;
        let mut rest = other_tables;
        let ghost mut k: int = 0;
        proof {
            assert(rest0.take(0) =~= Seq::<CellHashSet>::empty());
            assert(old(self).cells().union(tables_union(rest0.take(0))) =~= old(self).cells());
            assert(rest0.subrange(0, rest0.len() as int) =~= rest0);
        }
        while rest.len() > 0
            invariant
                tables_wf(self.tables@),
                tables_wf(rest0),
                tables_union(rest0) == other.cells(),
                old(self).cells().disjoint(other.cells()),
                0 <= k <= rest0.len(),
                rest@ == rest0.subrange(k, rest0.len() as int),
                self.cells() == old(self).cells().union(tables_union(rest0.take(k))),
                self.grid == old(self).grid,
                self.min == old(self).min,
                self.max == old(self).max,
            decreases rest@.len(),
        {
            let ghost t0 = self.tables@;
            let other_table = rest.remove(0);
            proof {
                assert(other_table == rest0[k]);
                assert(rest0.take(k + 1) == rest0.take(k).push(rest0[k]));
                assert(rest0.take(k + 1).drop_last() == rest0.take(k));
                assert(tables_union(rest0.take(k + 1)) == tables_union(rest0.take(k)).union(cell_set(other_table)));
                assert(cell_set(other_table).disjoint(tables_union(t0))) by {
                    assert forall|c: CellId| cell_set(other_table).contains(c) implies !tables_union(t0).contains(c) by {
                        lemma_tables_union_contains(rest0, c);
                        assert(other.cells().contains(c));
                        if tables_union(rest0.take(k)).contains(c) {
                            lemma_tables_union_contains(rest0.take(k), c);
                            let j = choose|j: int| 0 <= j < rest0.take(k).len() && #[trigger] cell_set(rest0.take(k)[j]).contains(c);
                            assert(rest0.take(k)[j] == rest0[j]);
                            assert(cell_set(rest0[j]).disjoint(cell_set(rest0[k])));
                        }
                    }
                }
                assert(cell_set(rest0[k]).finite() && cell_set(rest0[k]) != Set::<CellId>::empty());
                k = k + 1;
                assert(rest@ =~= rest0.subrange(k, rest0.len() as int));
            }
            if cell_set_len(&other_table) < MIN_TABLE_SIZE {
                match self.smallest_table() {
                    Some(i) => {
                        let mut table = self.tables.remove(i);
                        let ghost x = cell_set(other_table);
                        cell_set_extend(&mut table, other_table);
                        self.tables.insert(i, table);
                        proof {
                            assert(self.tables@ =~= t0.update(i as int, table));
                            lemma_tables_replace(t0, self.tables@, i as int, x);
                        }
                    }
                    None => {
                        self.tables.push(other_table);
                        proof {
                            lemma_tables_push(t0, other_table);
                        }
                    }
                }
            } else {
                self.tables.push(other_table);
                proof {
                    lemma_tables_push(t0, other_table);
                }
            }
        }
        proof {
            assert(rest0.take(k) =~= rest0);
        }
        self.min = self.min.min(other_min);
        self.max = self.max.max(other_max);
        proof {
            if old(self).bounds_exact() && other.bounds_exact() {
                lemma_min_union(old(self).cells(), old(self).min_bound(), other.cells(), other.min_bound());
                lemma_max_union(old(self).cells(), old(self).max_bound(), other.cells(), other.max_bound());
            }
        }
    }

    /// Removes `cell` from the partition, returning `true` if it was present. The bounds are
    /// computed again, from all remaining cells, along each side whose plane the removed cell
    /// lies on.
    pub(crate) fn remove(&mut self, cell: &CellId) -> (r: bool)
        requires
            old(self).wf(),
        ensures
            final(self).wf(),
            r == old(self).cells().contains(*cell),
            final(self).cells() == old(self).cells().remove(*cell),
            final(self).grid_bits() == old(self).grid_bits(),
            !r ==> *final(self) == *old(self),
            r && final(self).cells() != Set::<CellId>::empty() ==> {
                &&& on_bound(cell.cell(), old(self).min_bound()) ==> is_min_of(final(self).cells(), final(self).min_bound())
                &&& !on_bound(cell.cell(), old(self).min_bound()) ==> final(self).min_bound() == old(self).min_bound()
                &&& on_bound(cell.cell(), old(self).max_bound()) ==> is_max_of(final(self).cells(), final(self).max_bound())
                &&& !on_bound(cell.cell(), old(self).max_bound()) ==> final(self).max_bound() == old(self).max_bound()
            },
            r && final(self).cells() == Set::<CellId>::empty() ==> {
                &&& final(self).min_bound() == if on_bound(cell.cell(), old(self).min_bound()) {
                    empty_min_bound()
                } else {
                    old(self).min_bound()
                }
                &&& final(self).max_bound() == if on_bound(cell.cell(), old(self).max_bound()) {
                    empty_max_bound()
                } else {
                    old(self).max_bound()
                }
            },
            old(self).bounds_exact() && final(self).cells() != Set::<CellId>::empty() ==> final(self).bounds_exact(),
    {
        proof {
            lemma_tables_union_contains(self.tables@, *cell);
        }
        let mut i: usize = 0;
        while i < self.tables.len()
            invariant_except_break
                0 <= i <= self.tables@.len(),
                forall|k: int| 0 <= k < i ==> !cell_set(#[trigger] self.tables@[k]).contains(*cell),
            ensures
                0 <= i <= self.tables@.len(),
                forall|k: int| 0 <= k < i ==> !cell_set(#[trigger] self.tables@[k]).contains(*cell),
                i < self.tables@.len() ==> cell_set(self.tables@[i as int]).contains(*cell),
            decreases self.tables@.len() - i,
        {
            if cell_set_contains(&self.tables[i], cell) {
                break;
            }
            i += 1;
        }
        if i == self.tables.len() {
            proof {
                assert(old(self).cells().remove(*cell) =~= old(self).cells());
            }
            return false;
        }
        let ghost t0 = self.tables@;
        let mut table = self.tables.remove(i);
        cell_set_remove(&mut table, cell);
        self.tables.insert(i, table);
        let ghost t1 = self.tables@;
        proof {
            assert(t1 =~= t0.update(i as int, table));
        }
        if cell_set_is_empty(&self.tables[i]) {
            self.tables.swap_remove(i);
            proof {
                assert(self.tables@ =~= t0.update(i as int, t0.last()).drop_last());
                lemma_tables_drop(t0, i as int, *cell);
            }
        } else {
            proof {
                lemma_tables_remove_cell(t0, t1, i as int, *cell);
            }
        }
        let removed = cell.coord();
        let min = self.min;
        let max = self.max;
        if min.x == removed.x || min.y == removed.y || min.z == removed.z {
            self.compute_min();
        }
        if max.x == removed.x || max.y == removed.y || max.z == removed.z {
            self.compute_max();
        }
        proof {
            let s = old(self).cells();
            lemma_bounds_remove(s, old(self).min_bound(), old(self).max_bound(), *cell);
        }
        true
    }

    /// Computes the minimum bound again from all cells, scanning every cell.
    fn compute_min(&mut self)
        requires
            old(self).wf(),
        ensures
            final(self).tables == old(self).tables,
            final(self).grid == old(self).grid,
            final(self).max == old(self).max,
            old(self).cells() != Set::<CellId>::empty() ==> is_min_of(final(self).cells(), final(self).min),
            old(self).cells() == Set::<CellId>::empty() ==> final(self).min == empty_min_bound(),
    {
        let cells = self.iter();
        if cells.len() == 0 {
            proof {
                assert(cells@.to_set() =~= Set::<CellId>::empty());
            }
            self.min = CellCoord::one() * 10_000_000_000i64;
            return;
        }
        let mut acc = cells[0].coord();
        proof {
            lemma_bounds_single(cells@[0]);
            assert(cells@.take(1) == Seq::<CellId>::empty().push(cells@[0]));
            Seq::<CellId>::empty().lemma_push_to_set_commute(cells@[0]);
            assert(Seq::<CellId>::empty().to_set() =~= Set::<CellId>::empty());
            assert(cells@.take(1).to_set() =~= set![cells@[0]]);
        }
        let mut k: usize = 1;
        while k < cells.len()
            invariant
                1 <= k <= cells@.len(),
                is_min_of(cells@.take(k as int).to_set(), acc),
            decreases cells@.len() - k,
        {
            let c = cells[k];
            proof {
                lemma_bounds_single(c);
                lemma_min_union(cells@.take(k as int).to_set(), acc, set![c], c.cell());
                assert(cells@.take(k as int + 1) == cells@.take(k as int).push(c));
                cells@.take(k as int).lemma_push_to_set_commute(c);
                assert(cells@.take(k as int + 1).to_set() =~= cells@.take(k as int).to_set().union(set![c]));
            }
            acc = acc.min(c.coord());
            k += 1;
        }
        proof {
            assert(cells@.take(cells@.len() as int) == cells@);
            assert(cells@.to_set() == self.cells());
        }
        self.min = acc;
    }

    /// Computes the maximum bound again from all cells, scanning every cell.
    fn compute_max(&mut self)
        requires
            old(self).wf(),
        ensures
            final(self).tables == old(self).tables,
            final(self).grid == old(self).grid,
            final(self).min == old(self).min,
            old(self).cells() != Set::<CellId>::empty() ==> is_max_of(final(self).cells(), final(self).max),
            old(self).cells() == Set::<CellId>::empty() ==> final(self).max == empty_max_bound(),
    {
        let cells = self.iter();
        if cells.len() == 0 {
            proof {
                assert(cells@.to_set() =~= Set::<CellId>::empty());
            }
            self.max = CellCoord::one() * -10_000_000_000i64;
            return;
        }
        let mut acc = cells[0].coord();
        proof {
            lemma_bounds_single(cells@[0]);
            assert(cells@.take(1) == Seq::<CellId>::empty().push(cells@[0]));
            Seq::<CellId>::empty().lemma_push_to_set_commute(cells@[0]);
            assert(Seq::<CellId>::empty().to_set() =~= Set::<CellId>::empty());
            assert(cells@.take(1).to_set() =~= set![cells@[0]]);
        }
        let mut k: usize = 1;
        while k < cells.len()
            invariant
                1 <= k <= cells@.len(),
                is_max_of(cells@.take(k as int).to_set(), acc),
            decreases cells@.len() - k,
        {
            let c = cells[k];
            proof {
                lemma_bounds_single(c);
                lemma_max_union(cells@.take(k as int).to_set(), acc, set![c], c.cell());
                assert(cells@.take(k as int + 1) == cells@.take(k as int).push(c));
                cells@.take(k as int).lemma_push_to_set_commute(c);
                assert(cells@.take(k as int + 1).to_set() =~= cells@.take(k as int).to_set().union(set![c]));
            }
            acc = acc.max(c.coord());
            k += 1;
        }
        proof {
            assert(cells@.take(cells@.len() as int) == cells@);
            assert(cells@.to_set() == self.cells());
        }
        self.max = acc;
    }
}

/// Replacing the table at `i` of a well-formed list with that table plus a set of cells that no
/// table holds keeps the list well-formed and adds the set to its cells.
pub proof fn lemma_tables_replace(t0: Seq<CellHashSet>, t: Seq<CellHashSet>, i: int, x: Set<CellId>)
    requires
        0 <= i < t0.len(),
        t == t0.update(i, t[i]),
        cell_set(t[i]) == cell_set(t0[i]).union(x),
        tables_wf(t0),
        x.finite(),
        x.disjoint(tables_union(t0)),
    ensures
        tables_wf(t),
        tables_union(t) == tables_union(t0).union(x),
{
    assert(cell_set(t0[i]).contains(cell_set(t0[i]).choose())) by {
        let s0 = cell_set(t0[i]);
        if !exists|a: CellId| s0.contains(a) {
            assert(s0 =~= Set::<CellId>::empty());
        }
    }
    assert forall|k: int| 0 <= k < t.len() implies cell_set(#[trigger] t[k]).finite()
        && cell_set(t[k]) != Set::<CellId>::empty() by {
        if k == i {
            assert(cell_set(t[k]).contains(cell_set(t0[i]).choose()));
        }
    }
    assert forall|a: int, b: int| 0 <= a < t.len() && 0 <= b < t.len() && a != b
        implies cell_set(#[trigger] t[a]).disjoint(cell_set(#[trigger] t[b])) by {
        if a == i || b == i {
            let o = if a == i { b } else { a };
            assert(t[o] == t0[o]);
            assert forall|c: CellId| cell_set(t0[o]).contains(c) implies !x.contains(c) by {
                lemma_tables_union_contains(t0, c);
            }
            assert(cell_set(t0[i]).disjoint(cell_set(t0[o])));
        } else {
            assert(t[a] == t0[a] && t[b] == t0[b]);
        }
    }
    assert forall|c: CellId| tables_union(t).contains(c) <==> tables_union(t0).union(x).contains(c) by {
        lemma_tables_union_contains(t, c);
        lemma_tables_union_contains(t0, c);
        if tables_union(t).contains(c) {
            let k = choose|k: int| 0 <= k < t.len() && #[trigger] cell_set(t[k]).contains(c);
            if k != i {
                assert(t[k] == t0[k]);
                assert(cell_set(t0[k]).contains(c));
            } else if !x.contains(c) {
                assert(cell_set(t0[k]).contains(c));
            }
        }
        if tables_union(t0).contains(c) {
            let k = choose|k: int| 0 <= k < t0.len() && #[trigger] cell_set(t0[k]).contains(c);
            if k != i {
                assert(t[k] == t0[k]);
            }
            assert(cell_set(t[k]).contains(c));
        }
        if x.contains(c) {
            assert(cell_set(t[i]).contains(c));
        }
    }
    assert(tables_union(t) =~= tables_union(t0).union(x));
}

/// Removing a cell from the table at `i` of a well-formed list, which keeps that table non-empty,
/// keeps the list well-formed and removes the cell from its cells.
pub proof fn lemma_tables_remove_cell(t0: Seq<CellHashSet>, t: Seq<CellHashSet>, i: int, cell: CellId)
    requires
        0 <= i < t0.len(),
        t == t0.update(i, t[i]),
        cell_set(t[i]) == cell_set(t0[i]).remove(cell),
        cell_set(t[i]) != Set::<CellId>::empty(),
        tables_wf(t0),
        cell_set(t0[i]).contains(cell),
    ensures
        tables_wf(t),
        tables_union(t) == tables_union(t0).remove(cell),
{
    assert forall|a: int, b: int| 0 <= a < t.len() && 0 <= b < t.len() && a != b
        implies cell_set(#[trigger] t[a]).disjoint(cell_set(#[trigger] t[b])) by {
        assert(cell_set(t0[a]).disjoint(cell_set(t0[b])));
        if a != i {
            assert(t[a] == t0[a]);
        }
        if b != i {
            assert(t[b] == t0[b]);
        }
    }
    assert forall|c: CellId| tables_union(t).contains(c) <==> tables_union(t0).remove(cell).contains(c) by {
        lemma_tables_union_contains(t, c);
        lemma_tables_union_contains(t0, c);
        if tables_union(t).contains(c) {
            let k = choose|k: int| 0 <= k < t.len() && #[trigger] cell_set(t[k]).contains(c);
            if k != i {
                assert(t[k] == t0[k]);
                assert(cell_set(t0[k]).contains(c));
                assert(cell_set(t0[k]).disjoint(cell_set(t0[i])));
            } else {
                assert(cell_set(t0[k]).contains(c));
            }
        }
        if tables_union(t0).contains(c) && c != cell {
            let k = choose|k: int| 0 <= k < t0.len() && #[trigger] cell_set(t0[k]).contains(c);
            if k != i {
                assert(t[k] == t0[k]);
            }
            assert(cell_set(t[k]).contains(c));
        }
    }
    assert(tables_union(t) =~= tables_union(t0).remove(cell));
}

/// Removing the table at `i` of a well-formed list, whose only cell is `cell`, by moving the last
/// table into its place keeps the list well-formed and removes the cell from its cells.
pub proof fn lemma_tables_drop(t0: Seq<CellHashSet>, i: int, cell: CellId)
    requires
        0 <= i < t0.len(),
        tables_wf(t0),
        cell_set(t0[i]).remove(cell) == Set::<CellId>::empty(),
    ensures
        tables_wf(t0.update(i, t0.last()).drop_last()),
        tables_union(t0.update(i, t0.last()).drop_last()) == tables_union(t0).remove(cell),
{
    let t = t0.update(i, t0.last()).drop_last();
    let n = t0.len() - 1;
    assert(forall|k: int| 0 <= k < t.len() ==> t[k] == if k == i { t0[n] } else { t0[k] });
    assert(cell_set(t0[i]).contains(cell)) by {
        let s0 = cell_set(t0[i]);
        if !s0.contains(cell) {
            assert(s0 =~= s0.remove(cell));
        }
    }
    assert forall|k: int| 0 <= k < t.len() implies cell_set(#[trigger] t[k]).finite()
        && cell_set(t[k]) != Set::<CellId>::empty() by {
        if k == i {
            assert(cell_set(t0[n]).finite());
        } else {
            assert(cell_set(t0[k]).finite());
        }
    }
    assert forall|a: int, b: int| 0 <= a < t.len() && 0 <= b < t.len() && a != b
        implies cell_set(#[trigger] t[a]).disjoint(cell_set(#[trigger] t[b])) by {
        let a0 = if a == i { n } else { a };
        let b0 = if b == i { n } else { b };
        assert(cell_set(t0[a0]).disjoint(cell_set(t0[b0])));
    }
    assert forall|c: CellId| tables_union(t).contains(c) <==> tables_union(t0).remove(cell).contains(c) by {
        lemma_tables_union_contains(t, c);
        lemma_tables_union_contains(t0, c);
        if tables_union(t).contains(c) {
            let k = choose|k: int| 0 <= k < t.len() && #[trigger] cell_set(t[k]).contains(c);
            let k0 = if k == i { n } else { k };
            assert(cell_set(t0[k0]).contains(c));
            assert(k0 != i);
            assert(cell_set(t0[k0]).disjoint(cell_set(t0[i])));
        }
        if tables_union(t0).contains(c) && c != cell {
            let k = choose|k: int| 0 <= k < t0.len() && #[trigger] cell_set(t0[k]).contains(c);
            if k == i {
                assert(cell_set(t0[i]).remove(cell).contains(c));
            } else if k == n {
                assert(cell_set(t[i]).contains(c));
            } else {
                assert(cell_set(t[k]).contains(c));
            }
        }
    }
    assert(tables_union(t) =~= tables_union(t0).remove(cell));
}

/// Appending a finite, non-empty table that shares no cell with a well-formed list keeps the
/// list well-formed and adds the table's cells.
pub proof fn lemma_tables_push(t0: Seq<CellHashSet>, x: CellHashSet)
    requires
        tables_wf(t0),
        cell_set(x).finite(),
        cell_set(x) != Set::<CellId>::empty(),
        cell_set(x).disjoint(tables_union(t0)),
    ensures
        tables_wf(t0.push(x)),
        tables_union(t0.push(x)) == tables_union(t0).union(cell_set(x)),
{
    let t = t0.push(x);
    assert(t.drop_last() == t0);
    assert forall|a: int, b: int| 0 <= a < t.len() && 0 <= b < t.len() && a != b
        implies cell_set(#[trigger] t[a]).disjoint(cell_set(#[trigger] t[b])) by {
        if a == t0.len() || b == t0.len() {
            let o = if a == t0.len() { b } else { a };
            assert(t[o] == t0[o]);
            assert forall|c: CellId| cell_set(t0[o]).contains(c) implies !cell_set(x).contains(c) by {
                lemma_tables_union_contains(t0, c);
            }
        } else {
            assert(t[a] == t0[a] && t[b] == t0[b]);
        }
    }
}

} // verus!
