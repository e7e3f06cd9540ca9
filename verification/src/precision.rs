//! Integer types that can index the cells of a grid.

use vstd::prelude::*;

verus! {

/// `x` brought into the range `lo..=hi` by adding or subtracting a multiple of the range's width,
/// as two's complement arithmetic wraps.
pub open spec fn wrap_into(x: int, lo: int, hi: int) -> int
    recommends
        lo <= hi,
{
    lo + (x - lo) % (hi - lo + 1)
}

/// Within one width of the range on either side, wrapping moves a value by at most one width.
pub proof fn lemma_wrap_once(x: int, lo: int, hi: int)
    requires
        lo <= hi,
        lo - (hi - lo + 1) <= x < hi + (hi - lo + 1),
    ensures
        x > hi ==> wrap_into(x, lo, hi) == x - (hi - lo + 1),
        x < lo ==> wrap_into(x, lo, hi) == x + (hi - lo + 1),
        lo <= x <= hi ==> wrap_into(x, lo, hi) == x,
{
    let w = hi - lo + 1;
    if x > hi {
        vstd::arithmetic::div_mod::lemma_fundamental_div_mod_converse(x - lo, w, 1, x - lo - w);
    } else if x < lo {
        vstd::arithmetic::div_mod::lemma_fundamental_div_mod_converse(x - lo, w, -1, x - lo + w);
    } else {
        vstd::arithmetic::div_mod::lemma_fundamental_div_mod_converse(x - lo, w, 0, x - lo);
    }
}

/// Integer types usable as grid cell indices.
///
/// Larger types give a larger usable volume: with cells of edge length `e`, an `n`-bit index
/// covers a cube of edge `2^n * e`.
pub trait GridPrecision: Copy + Sized {
    /// The integer this value stands for.
    spec fn int_value(self) -> int;

    /// The smallest representable integer.
    spec fn lowest() -> int;

    /// The largest representable integer.
    spec fn highest() -> int;

    /// The zero value for this type.
    fn zero() -> (r: Self)
        ensures
            r.int_value() == 0,
    ;

    /// The value of `1` for this type.
    fn one() -> (r: Self)
        ensures
            r.int_value() == 1,
    ;

    /// Adds `rhs` to `self`, wrapping when overflow would occur.
    fn wrapping_add(self, rhs: Self) -> (r: Self)
        ensures
            r.int_value() == wrap_into(self.int_value() + rhs.int_value(), Self::lowest(), Self::highest()),
    ;

    /// Subtracts `rhs` from `self`, wrapping when overflow would occur.
    fn wrapping_sub(self, rhs: Self) -> (r: Self)
        ensures
            r.int_value() == wrap_into(self.int_value() - rhs.int_value(), Self::lowest(), Self::highest()),
    ;

    /// Multiplies `self` by `rhs`; the product must be representable.
    fn mul(self, rhs: Self) -> (r: Self)
        requires
            Self::lowest() <= self.int_value() * rhs.int_value() <= Self::highest(),
        ensures
            r.int_value() == self.int_value() * rhs.int_value(),
    ;
}

impl GridPrecision for i8 {
    open spec fn int_value(self) -> int {
        self as int
    }

    open spec fn lowest() -> int {
        i8::MIN as int
    }

    open spec fn highest() -> int {
        i8::MAX as int
    }

    fn zero() -> (r: Self) {
        0
    }

    fn one() -> (r: Self) {
        1
    }

    fn wrapping_add(self, rhs: Self) -> (r: Self) {
        let r = i8::wrapping_add(self, rhs);
        proof {
            let s = self as int + rhs as int;
            lemma_wrap_once(s, i8::MIN as int, i8::MAX as int);
        }
        r
    }

    fn wrapping_sub(self, rhs: Self) -> (r: Self) {
        let r = i8::wrapping_sub(self, rhs);
        proof {
            let s = self as int - rhs as int;
            lemma_wrap_once(s, i8::MIN as int, i8::MAX as int);
        }
        r
    }

    fn mul(self, rhs: Self) -> (r: Self) {
        self * rhs
    }
}

impl GridPrecision for i16 {
    open spec fn int_value(self) -> int {
        self as int
    }

    open spec fn lowest() -> int {
        i16::MIN as int
    }

    open spec fn highest() -> int {
        i16::MAX as int
    }

    fn zero() -> (r: Self) {
        0
    }

    fn one() -> (r: Self) {
        1
    }

    fn wrapping_add(self, rhs: Self) -> (r: Self) {
        let r = i16::wrapping_add(self, rhs);
        proof {
            let s = self as int + rhs as int;
            lemma_wrap_once(s, i16::MIN as int, i16::MAX as int);
        }
        r
    }

    fn wrapping_sub(self, rhs: Self) -> (r: Self) {
        let r = i16::wrapping_sub(self, rhs);
        proof {
            let s = self as int - rhs as int;
            lemma_wrap_once(s, i16::MIN as int, i16::MAX as int);
        }
        r
    }

    fn mul(self, rhs: Self) -> (r: Self) {
        self * rhs
    }
}

impl GridPrecision for i32 {
    open spec fn int_value(self) -> int {
        self as int
    }

    open spec fn lowest() -> int {
        i32::MIN as int
    }

    open spec fn highest() -> int {
        i32::MAX as int
    }

    fn zero() -> (r: Self) {
        0
    }

    fn one() -> (r: Self) {
        1
    }

    fn wrapping_add(self, rhs: Self) -> (r: Self) {
        let r = i32::wrapping_add(self, rhs);
        proof {
            let s = self as int + rhs as int;
            lemma_wrap_once(s, i32::MIN as int, i32::MAX as int);
        }
        r
    }

    fn wrapping_sub(self, rhs: Self) -> (r: Self) {
        let r = i32::wrapping_sub(self, rhs);
        proof {
            let s = self as int - rhs as int;
            lemma_wrap_once(s, i32::MIN as int, i32::MAX as int);
        }
        r
    }

    fn mul(self, rhs: Self) -> (r: Self) {
        self * rhs
    }
}

impl GridPrecision for i64 {
    open spec fn int_value(self) -> int {
        self as int
    }

    open spec fn lowest() -> int {
        i64::MIN as int
    }

    open spec fn highest() -> int {
        i64::MAX as int
    }

    fn zero() -> (r: Self) {
        0
    }

    fn one() -> (r: Self) {
        1
    }

    fn wrapping_add(self, rhs: Self) -> (r: Self) {
        let r = i64::wrapping_add(self, rhs);
        proof {
            let s = self as int + rhs as int;
            lemma_wrap_once(s, i64::MIN as int, i64::MAX as int);
        }
        r
    }

    fn wrapping_sub(self, rhs: Self) -> (r: Self) {
        let r = i64::wrapping_sub(self, rhs);
        proof {
            let s = self as int - rhs as int;
            lemma_wrap_once(s, i64::MIN as int, i64::MAX as int);
        }
        r
    }

    fn mul(self, rhs: Self) -> (r: Self) {
        self * rhs
    }
}

impl GridPrecision for i128 {
    open spec fn int_value(self) -> int {
        self as int
    }

    open spec fn lowest() -> int {
        i128::MIN as int
    }

    open spec fn highest() -> int {
        i128::MAX as int
    }

    fn zero() -> (r: Self) {
        0
    }

    fn one() -> (r: Self) {
        1
    }

    fn wrapping_add(self, rhs: Self) -> (r: Self) {
        let r = i128::wrapping_add(self, rhs);
        proof {
            let s = self as int + rhs as int;
            lemma_wrap_once(s, i128::MIN as int, i128::MAX as int);
        }
        r
    }

    fn wrapping_sub(self, rhs: Self) -> (r: Self) {
        let r = i128::wrapping_sub(self, rhs);
        proof {
            let s = self as int - rhs as int;
            lemma_wrap_once(s, i128::MIN as int, i128::MAX as int);
        }
        r
    }

    fn mul(self, rhs: Self) -> (r: Self) {
        self * rhs
    }
}

} // verus!
