//! The integer coordinate of a cubic cell in a grid.

use vstd::prelude::*;

verus! {

/// The wrapping sum of an `i64` and a small integer offset, as computed by `i64::wrapping_add`.
pub open spec fn wrap_add(a: i64, d: int) -> i64 {
    vstd::wrapping::i64_specs::wrapping_add(a, d as i64)
}

/// Integer division rounding toward zero, as Rust's `/` computes it.
pub open spec fn trunc_div(a: int, b: int) -> int {
    if a >= 0 {
        if b > 0 { a / b } else { -(a / -b) }
    } else {
        if b > 0 { -((-a) / b) } else { (-a) / (-b) }
    }
}

/// Rust's `/` on `i64`, which rounds toward zero.
fn div_toward_zero(a: i64, b: i64) -> (r: i64)
    requires
        b != 0,
        b == -1 ==> a != i64::MIN,
    ensures
        r == trunc_div(a as int, b as int),
{
    proof {
        let x = a as int;
        let d = b as int;
        assert(x > 0 && d > 0 ==> 0 <= x / d <= x) by (nonlinear_arith);
        assert(x < 0 && d < -1 ==> 0 <= (-x) / (-d) < -x) by (nonlinear_arith);
        assert(x < 0 && d == -1 ==> (-x) / (-d) == -x) by (nonlinear_arith);
        assert(x < 0 && d > 0 ==> 0 <= (-x) / d <= -x) by (nonlinear_arith);
        assert(x > 0 && d < 0 ==> 0 <= x / (-d) <= x) by (nonlinear_arith);
    }
    match a.checked_div(b) {
        Some(q) => q,
        None => 0,
    }
}

/// The integer coordinate of a cubic cell in a grid.
///
/// The `Transform` of an entity located in a cell is relative to the center of that cell. Cell
/// arithmetic wraps around the edges of the `i64` range.
#[derive(Clone, Copy, Debug, Default, PartialEq, Eq, Hash, Structural)]
pub struct CellCoord {
    /// X coordinate of a cell in its parent grid.
    pub x: i64,
    /// Y coordinate of a cell in its parent grid.
    pub y: i64,
    /// Z coordinate of a cell in its parent grid.
    pub z: i64,
}

/// The component-wise minimum of two cells.
pub open spec fn cell_min(a: CellCoord, b: CellCoord) -> CellCoord {
    CellCoord {
        x: if a.x <= b.x { a.x } else { b.x },
        y: if a.y <= b.y { a.y } else { b.y },
        z: if a.z <= b.z { a.z } else { b.z },
    }
}

/// The component-wise maximum of two cells.
pub open spec fn cell_max(a: CellCoord, b: CellCoord) -> CellCoord {
    CellCoord {
        x: if a.x >= b.x { a.x } else { b.x },
        y: if a.y >= b.y { a.y } else { b.y },
        z: if a.z >= b.z { a.z } else { b.z },
    }
}

/// The cell reached from `c` by moving `(dx, dy, dz)` cells, wrapping at the edges of the grid.
pub open spec fn cell_offset(c: CellCoord, dx: int, dy: int, dz: int) -> CellCoord {
    CellCoord { x: wrap_add(c.x, dx), y: wrap_add(c.y, dy), z: wrap_add(c.z, dz) }
}

impl CellCoord {
    /// The origin cell.
    pub fn zero() -> (r: CellCoord)
        ensures
            r == (CellCoord { x: 0, y: 0, z: 0 }),
    {
        CellCoord { x: 0, y: 0, z: 0 }
    }

    /// A unit valued cell, useful for offsets.
    pub fn one() -> (r: CellCoord)
        ensures
            r == (CellCoord { x: 1, y: 1, z: 1 }),
    {
        CellCoord { x: 1, y: 1, z: 1 }
    }

    /// Construct a new cell coordinate.
    pub fn new(x: i64, y: i64, z: i64) -> (r: Self)
        ensures
            r == (CellCoord { x, y, z }),
    {
        CellCoord { x, y, z }
    }

    /// Returns a cell containing the minimum values for each element of `self` and `rhs`.
    pub fn min(&self, rhs: Self) -> (r: Self)
        ensures
            r == cell_min(*self, rhs),
    {
        CellCoord { x: self.x.min(rhs.x), y: self.y.min(rhs.y), z: self.z.min(rhs.z) }
    }

    /// Returns a cell containing the maximum values for each element of `self` and `rhs`.
    pub fn max(&self, rhs: Self) -> (r: Self)
        ensures
            r == cell_max(*self, rhs),
    {
        CellCoord { x: self.x.max(rhs.x), y: self.y.max(rhs.y), z: self.z.max(rhs.z) }
    }

    /// Moves this cell by a 32-bit integer offset, wrapping at the edges of the grid.
    pub fn add_offset(self, dx: i32, dy: i32, dz: i32) -> (r: Self)
        ensures
            r == cell_offset(self, dx as int, dy as int, dz as int),
    {
        CellCoord {
            x: self.x.wrapping_add(dx as i64),
            y: self.y.wrapping_add(dy as i64),
            z: self.z.wrapping_add(dz as i64),
        }
    }

    /// Moves this cell by the negation of a 32-bit integer offset, wrapping at the edges of the
    /// grid. The offset is negated as an `i32`, which cannot hold `-i32::MIN`.
    pub fn sub_offset(self, dx: i32, dy: i32, dz: i32) -> (r: Self)
        requires
            dx != i32::MIN,
            dy != i32::MIN,
            dz != i32::MIN,
        ensures
            r == cell_offset(self, -dx, -dy, -dz),
    {
        CellCoord {
            x: self.x.wrapping_add((-dx) as i64),
            y: self.y.wrapping_add((-dy) as i64),
            z: self.z.wrapping_add((-dz) as i64),
        }
    }
}

/// The component-wise wrapping difference of two cells.
pub open spec fn cell_wrapping_sub(a: CellCoord, b: CellCoord) -> CellCoord {
    CellCoord {
        x: vstd::wrapping::i64_specs::wrapping_sub(a.x, b.x),
        y: vstd::wrapping::i64_specs::wrapping_sub(a.y, b.y),
        z: vstd::wrapping::i64_specs::wrapping_sub(a.z, b.z),
    }
}

/// Whether every component of `c` times `k` fits in an `i64`.
pub open spec fn cell_mul_fits(c: CellCoord, k: i64) -> bool {
    &&& i64::MIN <= c.x * k <= i64::MAX
    &&& i64::MIN <= c.y * k <= i64::MAX
    &&& i64::MIN <= c.z * k <= i64::MAX
}

/// Whether every component of `c` can be divided by `k` without a panic.
pub open spec fn cell_div_ok(c: CellCoord, k: i64) -> bool {
    &&& k != 0
    &&& k == -1 ==> c.x != i64::MIN && c.y != i64::MIN && c.z != i64::MIN
}

impl core::ops::Add for CellCoord {
    type Output = CellCoord;

    /// Component-wise wrapping sum of two cells.
    fn add(self, rhs: Self) -> (r: Self::Output) {
        CellCoord {
            x: self.x.wrapping_add(rhs.x),
            y: self.y.wrapping_add(rhs.y),
            z: self.z.wrapping_add(rhs.z),
        }
    }
}

impl vstd::std_specs::ops::AddSpecImpl for CellCoord {
    open spec fn obeys_add_spec() -> bool {
        true
    }

    open spec fn add_req(self, rhs: CellCoord) -> bool {
        true
    }

    open spec fn add_spec(self, rhs: CellCoord) -> CellCoord {
        cell_offset(self, rhs.x as int, rhs.y as int, rhs.z as int)
    }
}

impl core::ops::Sub for CellCoord {
    type Output = CellCoord;

    /// Component-wise wrapping difference of two cells.
    fn sub(self, rhs: Self) -> (r: Self::Output) {
        CellCoord {
            x: self.x.wrapping_sub(rhs.x),
            y: self.y.wrapping_sub(rhs.y),
            z: self.z.wrapping_sub(rhs.z),
        }
    }
}

impl vstd::std_specs::ops::SubSpecImpl for CellCoord {
    open spec fn obeys_sub_spec() -> bool {
        true
    }

    open spec fn sub_req(self, rhs: CellCoord) -> bool {
        true
    }

    open spec fn sub_spec(self, rhs: CellCoord) -> CellCoord {
        cell_wrapping_sub(self, rhs)
    }
}

impl core::ops::Mul<i64> for CellCoord {
    type Output = CellCoord;

    /// Component-wise product with a scalar. Every product must fit in an `i64`.
    fn mul(self, rhs: i64) -> (r: Self::Output) {
        CellCoord { x: self.x * rhs, y: self.y * rhs, z: self.z * rhs }
    }
}

impl vstd::std_specs::ops::MulSpecImpl<i64> for CellCoord {
    open spec fn obeys_mul_spec() -> bool {
        true
    }

    open spec fn mul_req(self, rhs: i64) -> bool {
        cell_mul_fits(self, rhs)
    }

    open spec fn mul_spec(self, rhs: i64) -> CellCoord {
        CellCoord { x: (self.x * rhs) as i64, y: (self.y * rhs) as i64, z: (self.z * rhs) as i64 }
    }
}

impl core::ops::Div<i64> for CellCoord {
    type Output = CellCoord;

    /// Component-wise quotient by a scalar, rounding toward zero. The divisor must be non-zero,
    /// and `i64::MIN / -1` is excluded because it overflows.
    fn div(self, rhs: i64) -> (r: Self::Output) {
        CellCoord {
            x: div_toward_zero(self.x, rhs),
            y: div_toward_zero(self.y, rhs),
            z: div_toward_zero(self.z, rhs),
        }
    }
}

impl vstd::std_specs::ops::DivSpecImpl<i64> for CellCoord {
    open spec fn obeys_div_spec() -> bool {
        true
    }

    open spec fn div_req(self, rhs: i64) -> bool {
        cell_div_ok(self, rhs)
    }

    open spec fn div_spec(self, rhs: i64) -> CellCoord {
        CellCoord {
            x: trunc_div(self.x as int, rhs as int) as i64,
            y: trunc_div(self.y as int, rhs as int) as i64,
            z: trunc_div(self.z as int, rhs as int) as i64,
        }
    }
}

} // verus!
