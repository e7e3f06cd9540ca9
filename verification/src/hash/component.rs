//! Identifiers of grid cells that are unique across all grids, with a cached hash.

use vstd::prelude::*;
use crate::grid::cell::{CellCoord, cell_offset, wrap_add};

verus! {

/// The 64-bit hash that `bevy_platform::hash::fixed_hash_one` computes for the tuple
/// `(grid, x, y, z)`. Within one build it depends on these four values alone; the hasher does not
/// promise the same values across platforms or versions.
pub uninterp spec fn fixed_cell_hash(grid: u64, x: i64, y: i64, z: i64) -> u64;

/// Hashes a grid entity and a cell with bevy's deterministic `FixedHasher`.
///
/// Trusted: calls `bevy_platform::hash::fixed_hash_one` on the tuple `(grid, x, y, z)`, which
/// feeds the same words to the hasher as hashing the grid's bits followed by the cell. The
/// contract only names the result; nothing about its value is claimed.
#[verifier::external_body]
fn hash_grid_cell(grid: u64, cell: &CellCoord) -> (h: u64)
    ensures
        h == fixed_cell_hash(grid, cell.x, cell.y, cell.z),
{
    bevy_platform::hash::fixed_hash_one((grid, cell.x, cell.y, cell.z))
}

/// Uniquely identifies a grid cell across all grids, caching the hash of the cell and its grid
/// for fast lookups in hash maps that use this as a key.
///
/// Two cells with the same coordinate in different grids are different cells. The grid is
/// identified by the bits of its entity (`Entity::to_bits`).
#[derive(Clone, Copy, Debug)]
pub struct CellId {
    pub(crate) coord: CellCoord,
    pub(crate) grid: u64,
    pub(crate) pre_hash: u64,
}

impl CellId {
    /// The cell coordinate named by this identifier.
    pub closed spec fn cell(self) -> CellCoord {
        self.coord
    }

    /// The bits of the grid entity named by this identifier.
    pub closed spec fn grid_bits(self) -> u64 {
        self.grid
    }

    /// The cached hash of this identifier.
    pub closed spec fn hash_bits(self) -> u64 {
        self.pre_hash
    }

    /// The cached hash is the hash of the grid and the cell.
    #[verifier::type_invariant]
    pub open spec fn wf(self) -> bool {
        self.hash_bits() == fixed_cell_hash(
            self.grid_bits(),
            self.cell().x,
            self.cell().y,
            self.cell().z,
        )
    }

    /// Builds the identifier of `cell` within the grid whose entity has the bits `parent`.
    pub fn from_parent(parent: u64, cell: &CellCoord) -> (r: Self)
        ensures
            r.cell() == *cell,
            r.grid_bits() == parent,
            r.wf(),
    {
        let pre_hash = hash_grid_cell(parent, cell);
        CellId { coord: *cell, grid: parent, pre_hash }
    }

    /// Builds an identifier by hand. Prefer reading the identifier computed for an entity.
    pub fn __new_manual(parent: u64, cell: &CellCoord) -> (r: Self)
        ensures
            r.cell() == *cell,
            r.grid_bits() == parent,
            r.wf(),
    {
        Self::from_parent(parent, cell)
    }

    /// Recomputes this identifier from the grid and cell of its entity, which may have changed,
    /// and replaces it when the result differs. Returns whether it was replaced.
    pub fn refresh(&mut self, parent: u64, cell: &CellCoord) -> (changed: bool)
        ensures
            final(self).cell() == *cell,
            final(self).grid_bits() == parent,
            changed == !(old(self).cell() == *cell && old(self).grid_bits() == parent),
    {
        let fresh = CellId::from_parent(parent, cell);
        proof {
            use_type_invariant(&*self);
            if self.cell() == *cell && self.grid_bits() == parent {
                lemma_cell_id_ext(*self, fresh);
            }
        }
        if *self == fresh {
            false
        } else {
            *self = fresh;
            true
        }
    }

    /// Fast comparison of the cached hashes, which can return false positives but never false
    /// negatives: if this returns `false`, the two identifiers name different cells.
    pub fn fast_eq(&self, other: &Self) -> (r: bool)
        ensures
            r == (self.hash_bits() == other.hash_bits()),
            !r ==> self.cell() != other.cell() || self.grid_bits() != other.grid_bits(),
    {
        proof {
            use_type_invariant(self);
            use_type_invariant(other);
        }
        self.pre_hash == other.pre_hash
    }

    /// Returns all neighboring grid cells within `cell_radius` (a cube of cells centered on this
    /// one), without this cell itself. The x offset varies fastest, then y, then z.
    pub fn adjacent(&self, cell_radius: u8) -> (r: Vec<CellId>)
        ensures
            r@.map_values(|c: CellId| id_key(c)) == adjacent_cells(self.grid_bits(), self.cell(), cell_radius as int),
            forall|k: int| 0 <= k < r@.len() ==> (#[trigger] r@[k]).wf(),
            forall|k: int| 0 <= k < r@.len() ==> in_cube(self.grid_bits(), self.cell(), cell_radius as int, id_key(#[trigger] r@[k])),
            forall|d: (u64, CellCoord)| #[trigger] in_cube(self.grid_bits(), self.cell(), cell_radius as int, d)
                ==> exists|k: int| 0 <= k < r@.len() && id_key(#[trigger] r@[k]) == d,
            r@.len() == (1 + 2 * cell_radius) * (1 + 2 * cell_radius) * (1 + 2 * cell_radius) - 1,
            r@.no_duplicates(),
    {
        let radius: i32 = cell_radius as i32;
        let search_width: u32 = 1 + 2 * (cell_radius as u32);
        proof {
            assert(0 <= search_width * search_width <= 511 * 511) by (nonlinear_arith)
                requires 1 <= search_width <= 511;
            assert(0 <= search_width * search_width * search_width <= 511 * 511 * 511) by (nonlinear_arith)
                requires 1 <= search_width <= 511;
        }
        let w2: u32 = search_width * search_width;
        let search_volume: u32 = w2 * search_width;
        let mut out: Vec<CellId> = Vec::new();
        let mut i: u32 = 0;
        while i < search_volume
            invariant
                0 <= i <= search_volume,
                radius == cell_radius as int,
                search_width == 1 + 2 * radius,
                w2 == search_width * search_width,
                search_volume == w2 * search_width,
                out@.map_values(|c: CellId| id_key(c)) == adjacent_prefix(self.grid_bits(), self.cell(), radius as int, i as nat),
                forall|k: int| 0 <= k < out@.len() ==> (#[trigger] out@[k]).wf(),
            decreases search_volume - i,
        {
            let ux: u32 = i % search_width;
            let uy: u32 = (i / search_width) % search_width;
            let uz: u32 = (i / w2) % search_width;
            proof {
                assert(ux < search_width);
                assert(uy < search_width);
                assert(uz < search_width);
            }
            let ox: i32 = ux as i32 - radius;
            let oy: i32 = uy as i32 - radius;
            let oz: i32 = uz as i32 - radius;
            let ghost prev = out@;
            assert(cube_offset(radius as int, i as int) == (ox as int, oy as int, oz as int));
            if !(ox == 0 && oy == 0 && oz == 0) {
                let neighbor = self.coord.add_offset(ox, oy, oz);
                let id = CellId::from_parent(self.grid, &neighbor);
                out.push(id);
                proof {
                    assert(out@ == prev.push(id));
                    assert(out@.map_values(|c: CellId| id_key(c)) == prev.map_values(|c: CellId| id_key(c)).push(id_key(id)));
                }
            }
            i = i + 1;
        }
        proof {
            let keys = out@.map_values(|c: CellId| id_key(c));
            assert forall|k: int| 0 <= k < out@.len() implies
                in_cube(self.grid_bits(), self.cell(), cell_radius as int, id_key(#[trigger] out@[k])) by {
                assert(keys[k] == id_key(out@[k]));
                lemma_adjacent_cube(self.grid_bits(), self.cell(), cell_radius as int, keys[k]);
            }
            assert forall|d: (u64, CellCoord)| #[trigger] in_cube(self.grid_bits(), self.cell(), cell_radius as int, d)
                implies exists|k: int| 0 <= k < out@.len() && id_key(#[trigger] out@[k]) == d by {
                lemma_adjacent_cube(self.grid_bits(), self.cell(), cell_radius as int, d);
                let k = choose|k: int| 0 <= k < keys.len() && keys[k] == d;
                assert(id_key(out@[k]) == d);
            }
            lemma_adjacent_count(self.grid_bits(), self.cell(), cell_radius as int);
            assert forall|a: int, b: int| 0 <= a < out@.len() && 0 <= b < out@.len() && a != b implies out@[a] != out@[b] by {
                assert(keys[a] == id_key(out@[a]));
                assert(keys[b] == id_key(out@[b]));
            }
        }
        out
    }

    /// The cell coordinate of this identifier.
    pub fn coord(&self) -> (r: CellCoord)
        ensures
            r == self.cell(),
    {
        self.coord
    }

    /// The bits of the grid entity this cell belongs to.
    pub fn grid(&self) -> (r: u64)
        ensures
            r == self.grid_bits(),
    {
        self.grid
    }

    /// The cached hash of this identifier.
    pub fn pre_hash(&self) -> (r: u64)
        ensures
            r == self.hash_bits(),
    {
        self.pre_hash
    }
}

/// The offset visited at step `i` when enumerating a cube of cells with the given radius: the x
/// offset varies fastest, then y, then z.
pub open spec fn cube_offset(radius: int, i: int) -> (int, int, int) {
    let w = 1 + 2 * radius;
    (i % w - radius, (i / w) % w - radius, (i / (w * w)) % w - radius)
}

/// The `(grid, cell)` pairs visited by the first `n` steps of the enumeration of the cube of
/// cells around `cell` with the given radius, skipping the center.
pub open spec fn adjacent_prefix(grid: u64, cell: CellCoord, radius: int, n: nat) -> Seq<(u64, CellCoord)>
    decreases n,
{
    if n == 0 {
        Seq::empty()
    } else {
        let prev = adjacent_prefix(grid, cell, radius, (n - 1) as nat);
        let o = cube_offset(radius, n - 1);
        if o == (0int, 0int, 0int) {
            prev
        } else {
            prev.push((grid, cell_offset(cell, o.0, o.1, o.2)))
        }
    }
}

/// The `(grid, cell)` pairs of all cells within a Chebyshev distance `radius` of `cell`,
/// excluding `cell` itself, in enumeration order.
pub open spec fn adjacent_cells(grid: u64, cell: CellCoord, radius: int) -> Seq<(u64, CellCoord)> {
    let w = 1 + 2 * radius;
    adjacent_prefix(grid, cell, radius, (w * w * w) as nat)
}

/// Whether `b` is within one step of `a` along one axis, wrapping at the edges of the grid.
pub open spec fn near1(a: i64, b: i64) -> bool {
    b == wrap_add(a, -1) || b == a || b == wrap_add(a, 1)
}

/// Whether two `(grid, cell)` pairs are distinct cells of the same grid that touch, including
/// diagonally.
pub open spec fn are_neighbors(a: (u64, CellCoord), b: (u64, CellCoord)) -> bool {
    &&& a.0 == b.0
    &&& a.1 != b.1
    &&& near1(a.1.x, b.1.x)
    &&& near1(a.1.y, b.1.y)
    &&& near1(a.1.z, b.1.z)
}

/// Whether `d` is a cell of the grid within Chebyshev distance `radius` of `cell`, other than
/// `cell` itself: `cell` moved by offsets in `-radius..=radius` along each axis, not all zero.
pub open spec fn in_cube(grid: u64, cell: CellCoord, radius: int, d: (u64, CellCoord)) -> bool {
    exists|dx: int, dy: int, dz: int|
        -radius <= dx <= radius && -radius <= dy <= radius && -radius <= dz <= radius
        && !(dx == 0 && dy == 0 && dz == 0)
        && #[trigger] cell_offset(cell, dx, dy, dz) == d.1 && d.0 == grid
}

/// Each step of the enumeration of a cube of the given radius has offsets within the radius.
proof fn lemma_cube_offset_bounds(radius: int, i: int)
    requires
        0 <= radius,
        0 <= i,
    ensures
        -radius <= cube_offset(radius, i).0 <= radius,
        -radius <= cube_offset(radius, i).1 <= radius,
        -radius <= cube_offset(radius, i).2 <= radius,
{
    let w = 1 + 2 * radius;
    vstd::arithmetic::div_mod::lemma_mod_pos_bound(i, w);
    vstd::arithmetic::div_mod::lemma_div_pos_is_pos(i, w);
    vstd::arithmetic::div_mod::lemma_mod_pos_bound(i / w, w);
    vstd::arithmetic::mul::lemma_mul_strictly_positive(w, w);
    vstd::arithmetic::div_mod::lemma_div_pos_is_pos(i, w * w);
    vstd::arithmetic::div_mod::lemma_mod_pos_bound(i / (w * w), w);
}

/// The offsets `(dx, dy, dz)` within the radius are visited, at the step whose base-`2r+1`
/// digits are the offsets shifted up by the radius.
proof fn lemma_cube_offset_step(radius: int, dx: int, dy: int, dz: int)
    requires
        0 <= radius,
        -radius <= dx <= radius,
        -radius <= dy <= radius,
        -radius <= dz <= radius,
    ensures
        ({
            let w = 1 + 2 * radius;
            let i = (dx + radius) + w * ((dy + radius) + w * (dz + radius));
            &&& 0 <= i < w * w * w
            &&& cube_offset(radius, i) == (dx, dy, dz)
        }),
{
    let w = 1 + 2 * radius;
    let a = dx + radius;
    let b = dy + radius;
    let c = dz + radius;
    let q = b + w * c;
    let i = a + w * q;
    assert(0 <= w * c) by (nonlinear_arith)
        requires 0 <= c, 0 < w;
    assert(0 <= w * q) by (nonlinear_arith)
        requires 0 <= q, 0 < w;
    assert(i < w * w * w) by (nonlinear_arith)
        requires i == a + w * q, q == b + w * c, 0 <= a < w, 0 <= b < w, 0 <= c < w, 0 < w;
    vstd::arithmetic::div_mod::lemma_fundamental_div_mod_converse(i, w, q, a);
    vstd::arithmetic::div_mod::lemma_fundamental_div_mod_converse(q, w, c, b);
    vstd::arithmetic::div_mod::lemma_div_denominator(i, w, w);
    vstd::arithmetic::div_mod::lemma_small_mod(c as nat, w as nat);
    assert(i == q * w + a) by (nonlinear_arith)
        requires i == a + w * q;
    assert(q == c * w + b) by (nonlinear_arith)
        requires q == b + w * c;
}

/// Each step below the cube's volume is the number whose base-`2r+1` digits are its offsets
/// shifted up by the radius.
proof fn lemma_cube_offset_digits(radius: int, i: int)
    requires
        0 <= radius,
        0 <= i < (1 + 2 * radius) * (1 + 2 * radius) * (1 + 2 * radius),
    ensures
        i == (cube_offset(radius, i).0 + radius)
            + (1 + 2 * radius) * ((cube_offset(radius, i).1 + radius) + (1 + 2 * radius) * (cube_offset(radius, i).2 + radius)),
{
    let w = 1 + 2 * radius;
    let a = i % w;
    let q = i / w;
    let b = q % w;
    let c = q / w;
    vstd::arithmetic::div_mod::lemma_fundamental_div_mod(i, w);
    vstd::arithmetic::div_mod::lemma_mod_pos_bound(i, w);
    vstd::arithmetic::div_mod::lemma_div_pos_is_pos(i, w);
    vstd::arithmetic::div_mod::lemma_fundamental_div_mod(q, w);
    vstd::arithmetic::div_mod::lemma_mod_pos_bound(q, w);
    vstd::arithmetic::div_mod::lemma_div_pos_is_pos(q, w);
    vstd::arithmetic::div_mod::lemma_div_denominator(i, w, w);
    assert(q < w * w) by (nonlinear_arith)
        requires i == w * q + a, 0 <= a, i < w * w * w, 0 < w;
    assert(c < w) by (nonlinear_arith)
        requires q == w * c + b, 0 <= b, q < w * w, 0 < w;
    vstd::arithmetic::div_mod::lemma_small_mod(c as nat, w as nat);
}

/// Two steps below the cube's volume with the same offsets are the same step.
proof fn lemma_cube_offset_unique(radius: int, i: int, j: int)
    requires
        0 <= radius,
        0 <= i < (1 + 2 * radius) * (1 + 2 * radius) * (1 + 2 * radius),
        0 <= j < (1 + 2 * radius) * (1 + 2 * radius) * (1 + 2 * radius),
        cube_offset(radius, i) == cube_offset(radius, j),
    ensures
        i == j,
{
    lemma_cube_offset_digits(radius, i);
    lemma_cube_offset_digits(radius, j);
}

/// Moving a coordinate by two small offsets gives the same coordinate only for the same offset.
proof fn lemma_wrap_add_injective(a: i64, d1: int, d2: int)
    requires
        -255 <= d1 <= 255,
        -255 <= d2 <= 255,
        wrap_add(a, d1) == wrap_add(a, d2),
    ensures
        d1 == d2,
{
}

/// The first `n` steps of the enumeration list the cells at the offsets of those steps, but for
/// the center, each once.
proof fn lemma_adjacent_prefix_len(grid: u64, cell: CellCoord, radius: int, n: nat)
    requires
        0 <= radius <= 255,
        n <= (1 + 2 * radius) * (1 + 2 * radius) * (1 + 2 * radius),
    ensures
        adjacent_prefix(grid, cell, radius, n).len()
            == n - (if n > radius + (1 + 2 * radius) * (radius + (1 + 2 * radius) * radius) { 1int } else { 0int }),
        adjacent_prefix(grid, cell, radius, n).no_duplicates(),
    decreases n,
{
    let w = 1 + 2 * radius;
    let center = radius + w * (radius + w * radius);
    lemma_cube_offset_step(radius, 0, 0, 0);
    assert(cube_offset(radius, center) == (0int, 0int, 0int));
    if n > 0 {
        let m = (n - 1) as nat;
        lemma_adjacent_prefix_len(grid, cell, radius, m);
        let prev = adjacent_prefix(grid, cell, radius, m);
        let o = cube_offset(radius, m as int);
        if m == center {
        } else {
            assert(o != (0int, 0int, 0int)) by {
                if o == (0int, 0int, 0int) {
                    lemma_cube_offset_unique(radius, m as int, center);
                }
            }
            let x = (grid, cell_offset(cell, o.0, o.1, o.2));
            assert(!prev.contains(x)) by {
                if prev.contains(x) {
                    lemma_adjacent_prefix_contains(grid, cell, radius, m, x);
                    let i = choose|i: int| 0 <= i < m
                        && #[trigger] cube_offset(radius, i) != (0int, 0int, 0int)
                        && x == (grid, cell_offset(cell, cube_offset(radius, i).0, cube_offset(radius, i).1, cube_offset(radius, i).2));
                    lemma_cube_offset_bounds(radius, i);
                    lemma_cube_offset_bounds(radius, m as int);
                    let p = cube_offset(radius, i);
                    lemma_wrap_add_injective(cell.x, p.0, o.0);
                    lemma_wrap_add_injective(cell.y, p.1, o.1);
                    lemma_wrap_add_injective(cell.z, p.2, o.2);
                    lemma_cube_offset_unique(radius, i, m as int);
                }
            }
        }
    }
}

/// The cells around a cell within a radius are listed once each: there are `(2r+1)³ - 1` of
/// them, one for each offset in the cube but the center.
pub proof fn lemma_adjacent_count(grid: u64, cell: CellCoord, radius: int)
    requires
        0 <= radius <= 255,
    ensures
        adjacent_cells(grid, cell, radius).len() == (1 + 2 * radius) * (1 + 2 * radius) * (1 + 2 * radius) - 1,
        adjacent_cells(grid, cell, radius).no_duplicates(),
{
    let w = 1 + 2 * radius;
    vstd::arithmetic::mul::lemma_mul_strictly_positive(w, w);
    vstd::arithmetic::mul::lemma_mul_strictly_positive(w * w, w);
    assert(radius + w * (radius + w * radius) < w * w * w) by {
        lemma_cube_offset_step(radius, 0, 0, 0);
    }
    lemma_adjacent_prefix_len(grid, cell, radius, (w * w * w) as nat);
}

/// The first `n` steps of the enumeration list the cells at the offsets of those steps, but for
/// the center.
proof fn lemma_adjacent_prefix_contains(grid: u64, cell: CellCoord, radius: int, n: nat, d: (u64, CellCoord))
    ensures
        adjacent_prefix(grid, cell, radius, n).contains(d) <==> exists|i: int| 0 <= i < n
            && #[trigger] cube_offset(radius, i) != (0int, 0int, 0int)
            && d == (grid, cell_offset(cell, cube_offset(radius, i).0, cube_offset(radius, i).1, cube_offset(radius, i).2)),
    decreases n,
{
    if n > 0 {
        let m = (n - 1) as nat;
        lemma_adjacent_prefix_contains(grid, cell, radius, m, d);
        let prev = adjacent_prefix(grid, cell, radius, m);
        let o = cube_offset(radius, m as int);
        if o != (0int, 0int, 0int) {
            vstd::seq_lib::lemma_seq_contains_after_push(prev, (grid, cell_offset(cell, o.0, o.1, o.2)), d);
        }
    }
}

/// The cells around a cell within a radius are exactly the cells of its grid within that
/// Chebyshev distance, other than the cell itself: every listed cell is at offsets within
/// `-radius..=radius` along each axis, and every cell at such offsets, not all zero, is listed.
pub proof fn lemma_adjacent_cube(grid: u64, cell: CellCoord, radius: int, d: (u64, CellCoord))
    requires
        0 <= radius,
    ensures
        adjacent_cells(grid, cell, radius).contains(d) <==> in_cube(grid, cell, radius, d),
{
    let w = 1 + 2 * radius;
    vstd::arithmetic::mul::lemma_mul_strictly_positive(w, w);
    vstd::arithmetic::mul::lemma_mul_strictly_positive(w * w, w);
    let n = (w * w * w) as nat;
    lemma_adjacent_prefix_contains(grid, cell, radius, n, d);
    if adjacent_cells(grid, cell, radius).contains(d) {
        let i = choose|i: int| 0 <= i < n
            && #[trigger] cube_offset(radius, i) != (0int, 0int, 0int)
            && d == (grid, cell_offset(cell, cube_offset(radius, i).0, cube_offset(radius, i).1, cube_offset(radius, i).2));
        lemma_cube_offset_bounds(radius, i);
        let o = cube_offset(radius, i);
        assert(cell_offset(cell, o.0, o.1, o.2) == d.1);
    }
    if in_cube(grid, cell, radius, d) {
        let (dx, dy, dz) = choose|dx: int, dy: int, dz: int|
            -radius <= dx <= radius && -radius <= dy <= radius && -radius <= dz <= radius
            && !(dx == 0 && dy == 0 && dz == 0)
            && #[trigger] cell_offset(cell, dx, dy, dz) == d.1 && d.0 == grid;
        lemma_cube_offset_step(radius, dx, dy, dz);
        let i = (dx + radius) + w * ((dy + radius) + w * (dz + radius));
        assert(cube_offset(radius, i) == (dx, dy, dz));
        assert(0 <= i < n);
    }
}

/// The cell at step `i` of the enumeration of the cube of radius one around `cell`.
pub open spec fn cube_cell(grid: u64, cell: CellCoord, i: int) -> (u64, CellCoord) {
    let o = cube_offset(1, i);
    (grid, cell_offset(cell, o.0, o.1, o.2))
}

/// The 26 cells touching a cell, in the order in which they are enumerated: the cube of radius
/// one around it without its center, the step at position 13.
pub open spec fn touching_cells(grid: u64, cell: CellCoord) -> Seq<(u64, CellCoord)> {
    Seq::new(26, |k: int| cube_cell(grid, cell, if k < 13 { k } else { k + 1 }))
}

/// Being neighbors is symmetric.
pub proof fn lemma_neighbors_symmetric(a: (u64, CellCoord), b: (u64, CellCoord))
    ensures
        are_neighbors(a, b) == are_neighbors(b, a),
{
}

/// Step `i` of the enumeration of the cube of radius one has the offsets that are the base-3
/// digits of `i`, each shifted down by one: each step is a distinct offset in `{-1, 0, 1}`.
proof fn lemma_cube_offset_one(i: int)
    requires
        0 <= i < 27,
    ensures
        -1 <= cube_offset(1, i).0 <= 1,
        -1 <= cube_offset(1, i).1 <= 1,
        -1 <= cube_offset(1, i).2 <= 1,
        i == (cube_offset(1, i).0 + 1) + 3 * (cube_offset(1, i).1 + 1) + 9 * (cube_offset(1, i).2 + 1),
{
    assert(1 + 2 * 1int == 3);
    assert(3int * 3 == 9);
    let a = i % 3;
    let q = i / 3;
    let b = q % 3;
    let c = q / 3;
    assert(i == a + 3 * q && 0 <= a < 3) by (nonlinear_arith)
        requires a == i % 3, q == i / 3, 0 <= i;
    assert(q == b + 3 * c && 0 <= b < 3) by (nonlinear_arith)
        requires q == i / 3, 0 <= i, b == q % 3, c == q / 3;
    assert(c == i / 9) by (nonlinear_arith)
        requires i == a + 3 * q, 0 <= a < 3, q == b + 3 * c, 0 <= b < 3, 0 <= i;
    assert(0 <= c < 3) by (nonlinear_arith)
        requires c == i / 9, 0 <= i < 27;
    assert(c % 3 == c) by (nonlinear_arith)
        requires 0 <= c < 3;
}

/// The step of the enumeration of the cube of radius one with the given offsets.
proof fn lemma_cube_offset_one_of(dx: int, dy: int, dz: int)
    requires
        -1 <= dx <= 1,
        -1 <= dy <= 1,
        -1 <= dz <= 1,
    ensures
        cube_offset(1, (dx + 1) + 3 * (dy + 1) + 9 * (dz + 1)) == (dx, dy, dz),
{
    let i = (dx + 1) + 3 * (dy + 1) + 9 * (dz + 1);
    lemma_cube_offset_one(i);
}

/// The cells of the enumeration of the cube of radius one around `cell` are its neighbors, but
/// for the center, and differ from step to step.
proof fn lemma_cube_cell(grid: u64, cell: CellCoord, i: int, j: int)
    requires
        0 <= i < 27,
        0 <= j < 27,
    ensures
        i != 13 ==> are_neighbors((grid, cell), cube_cell(grid, cell, i)),
        cube_cell(grid, cell, i) == cube_cell(grid, cell, j) ==> i == j,
{
    lemma_cube_offset_one(i);
    lemma_cube_offset_one(j);
}

/// The first `n` steps of the enumeration of the cube of radius one, without the center, are
/// the first touching cells.
proof fn lemma_adjacent_prefix_one(grid: u64, cell: CellCoord, n: nat)
    requires
        n <= 27,
    ensures
        adjacent_prefix(grid, cell, 1, n) == touching_cells(grid, cell).take(if n <= 13 { n as int } else { n - 1 }),
    decreases n,
{
    let t = touching_cells(grid, cell);
    if n == 0 {
        assert(t.take(0) =~= Seq::<(u64, CellCoord)>::empty());
    } else {
        let m = (n - 1) as nat;
        lemma_adjacent_prefix_one(grid, cell, m);
        lemma_cube_offset_one(m as int);
        let o = cube_offset(1, m as int);
        if m == 13 {
            assert(o == (0int, 0int, 0int));
        } else {
            assert(o != (0int, 0int, 0int));
            let k: int = if m < 13 { m as int } else { m - 1 };
            assert(t[k] == cube_cell(grid, cell, m as int));
            assert(t.take(k).push(t[k]) =~= t.take(k + 1));
        }
    }
}

/// Enumerating the cube of radius one around a cell yields exactly its 26 touching cells.
pub proof fn lemma_adjacent_one(grid: u64, cell: CellCoord)
    ensures
        adjacent_cells(grid, cell, 1) == touching_cells(grid, cell),
{
    lemma_adjacent_prefix_one(grid, cell, 27);
    assert((1 + 2 * 1int) * (1 + 2 * 1int) * (1 + 2 * 1int) == 27) by (nonlinear_arith);
    assert(touching_cells(grid, cell).take(26) =~= touching_cells(grid, cell));
}

/// The touching cells of a cell are exactly its neighbors, each listed once.
pub proof fn lemma_touching_cells(grid: u64, cell: CellCoord)
    ensures
        touching_cells(grid, cell).len() == 26,
        touching_cells(grid, cell).no_duplicates(),
        forall|k: int| 0 <= k < 26 ==> are_neighbors((grid, cell), #[trigger] touching_cells(grid, cell)[k]),
        forall|d: (u64, CellCoord)| are_neighbors((grid, cell), d) ==> touching_cells(grid, cell).contains(d),
{
    let s = touching_cells(grid, cell);
    assert forall|k: int| 0 <= k < 26 implies are_neighbors((grid, cell), #[trigger] s[k]) by {
        let i = if k < 13 { k } else { k + 1 };
        lemma_cube_cell(grid, cell, i, i);
    }
    assert forall|a: int, b: int| 0 <= a < 26 && 0 <= b < 26 && a != b implies s[a] != s[b] by {
        let i = if a < 13 { a } else { a + 1 };
        let j = if b < 13 { b } else { b + 1 };
        lemma_cube_cell(grid, cell, i, j);
    }
    assert forall|d: (u64, CellCoord)| are_neighbors((grid, cell), d) implies s.contains(d) by {
        let dx: int = if d.1.x == wrap_add(cell.x, -1) { -1 } else if d.1.x == cell.x { 0 } else { 1 };
        let dy: int = if d.1.y == wrap_add(cell.y, -1) { -1 } else if d.1.y == cell.y { 0 } else { 1 };
        let dz: int = if d.1.z == wrap_add(cell.z, -1) { -1 } else if d.1.z == cell.z { 0 } else { 1 };
        assert(d.1 == cell_offset(cell, dx, dy, dz));
        let i = (dx + 1) + 3 * (dy + 1) + 9 * (dz + 1);
        lemma_cube_offset_one_of(dx, dy, dz);
        assert(i != 13);
        let k = if i < 13 { i } else { i - 1 };
        assert(s[k] == cube_cell(grid, cell, i));
        assert(s[k] == d);
    }
}

/// The `(grid, cell)` pair named by an identifier.
pub open spec fn id_key(id: CellId) -> (u64, CellCoord) {
    (id.grid_bits(), id.cell())
}

/// Whether two cell identifiers name touching cells of the same grid.
pub open spec fn touching(a: CellId, b: CellId) -> bool {
    are_neighbors(id_key(a), id_key(b))
}

/// The identifiers of the cells around `center` within a radius of one are its 26 touching
/// cells, each listed once.
pub proof fn lemma_adjacent_one_ids(center: CellId, adj: Seq<CellId>)
    requires
        center.wf(),
        adj.map_values(|c: CellId| id_key(c)) == adjacent_cells(center.grid_bits(), center.cell(), 1),
        forall|k: int| 0 <= k < adj.len() ==> (#[trigger] adj[k]).wf(),
    ensures
        adj.len() == 26,
        adj.no_duplicates(),
        forall|k: int| 0 <= k < 26 ==> touching(center, #[trigger] adj[k]),
        forall|d: CellId| d.wf() && touching(center, d) ==> adj.contains(d),
{
    let g = center.grid_bits();
    let c = center.cell();
    lemma_adjacent_one(g, c);
    lemma_touching_cells(g, c);
    let t = touching_cells(g, c);
    let keys = adj.map_values(|x: CellId| id_key(x));
    assert(keys.len() == adj.len());
    assert forall|k: int| 0 <= k < 26 implies touching(center, #[trigger] adj[k]) by {
        assert(keys[k] == id_key(adj[k]));
        assert(t[k] == keys[k]);
    }
    assert forall|i: int, j: int| 0 <= i < adj.len() && 0 <= j < adj.len() && i != j implies adj[i] != adj[j] by {
        assert(keys[i] == id_key(adj[i]));
        assert(keys[j] == id_key(adj[j]));
    }
    assert forall|d: CellId| d.wf() && touching(center, d) implies adj.contains(d) by {
        assert(t.contains(id_key(d)));
        let k = choose|k: int| 0 <= k < t.len() && t[k] == id_key(d);
        assert(keys[k] == id_key(adj[k]));
        lemma_cell_id_ext(adj[k], d);
    }
}

/// Two well-formed identifiers with the same grid and cell are the same value.
pub proof fn lemma_cell_id_ext(a: CellId, b: CellId)
    requires
        a.wf(),
        b.wf(),
        a.cell() == b.cell(),
        a.grid_bits() == b.grid_bits(),
    ensures
        a == b,
{
}

impl PartialEq for CellId {
    fn eq(&self, other: &Self) -> (r: bool) {
        self.pre_hash == other.pre_hash && self.coord == other.coord && self.grid == other.grid
    }
}

impl vstd::std_specs::cmp::PartialEqSpecImpl for CellId {
    open spec fn obeys_eq_spec() -> bool {
        true
    }

    open spec fn eq_spec(&self, other: &CellId) -> bool {
        *self == *other
    }
}

impl Eq for CellId {}

impl core::hash::Hash for CellId {
    #[verifier::external_body]
    fn hash<H: core::hash::Hasher>(&self, state: &mut H) {
        state.write_u64(self.pre_hash);
    }
}

} // verus!
