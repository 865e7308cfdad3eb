//! Integer vector and rectangle arithmetic used by the layout and
//! transform stages. All arithmetic saturates at the machine bounds, so
//! no operation here can panic.

use vstd::prelude::*;

verus! {

/// Clamps a mathematical integer into the `i64` range.
pub open spec fn sat64(v: int) -> int {
    if v > i64::MAX as int {
        i64::MAX as int
    } else if v < i64::MIN as int {
        i64::MIN as int
    } else {
        v
    }
}

/// Saturating addition on `i64`.
pub fn sat_add(a: i64, b: i64) -> (r: i64)
    ensures
        r as int == sat64(a + b),
{
    let s: i128 = a as i128 + b as i128;
    if s > i64::MAX as i128 {
        i64::MAX
    } else if s < i64::MIN as i128 {
        i64::MIN
    } else {
        s as i64
    }
}

/// Saturating subtraction on `i64`.
pub fn sat_sub(a: i64, b: i64) -> (r: i64)
    ensures
        r as int == sat64(a - b),
{
    let s: i128 = a as i128 - b as i128;
    if s > i64::MAX as i128 {
        i64::MAX
    } else if s < i64::MIN as i128 {
        i64::MIN
    } else {
        s as i64
    }
}

/// A two-dimensional vector with integer coordinates.
#[derive(Clone, Copy, PartialEq, Eq, Structural, Debug)]
pub struct Vec2 {
    pub x: i64,
    pub y: i64,
}

impl Vec2 {
    /// The zero vector.
    pub fn zero() -> (r: Vec2)
        ensures
            r == (Vec2 { x: 0, y: 0 }),
    {
        Vec2 { x: 0, y: 0 }
    }

    pub fn new(x: i64, y: i64) -> (r: Vec2)
        ensures
            r == (Vec2 { x, y }),
    {
        Vec2 { x, y }
    }

    /// Component-wise saturating sum.
    pub open spec fn spec_vadd(self, o: Vec2) -> Vec2 {
        Vec2 { x: sat64(self.x + o.x) as i64, y: sat64(self.y + o.y) as i64 }
    }

    /// Component-wise saturating difference.
    pub open spec fn spec_vsub(self, o: Vec2) -> Vec2 {
        Vec2 { x: sat64(self.x - o.x) as i64, y: sat64(self.y - o.y) as i64 }
    }

    /// Component-wise order: `self` is no larger than `o` in both axes.
    pub open spec fn le(self, o: Vec2) -> bool {
        self.x <= o.x && self.y <= o.y
    }

    pub fn vadd(self, o: Vec2) -> (r: Vec2)
        ensures
            r == self.spec_vadd(o),
    {
        Vec2 { x: sat_add(self.x, o.x), y: sat_add(self.y, o.y) }
    }

    pub fn vsub(self, o: Vec2) -> (r: Vec2)
        ensures
            r == self.spec_vsub(o),
    {
        Vec2 { x: sat_sub(self.x, o.x), y: sat_sub(self.y, o.y) }
    }

    /// Component-wise clamp of `self` into `[lo, hi]`.
    pub open spec fn spec_vclamp(self, lo: Vec2, hi: Vec2) -> Vec2 {
        Vec2 {
            x: if self.x < lo.x {
                lo.x
            } else if self.x > hi.x {
                hi.x
            } else {
                self.x
            },
            y: if self.y < lo.y {
                lo.y
            } else if self.y > hi.y {
                hi.y
            } else {
                self.y
            },
        }
    }

    pub fn vclamp(self, lo: Vec2, hi: Vec2) -> (r: Vec2)
        ensures
            r == self.spec_vclamp(lo, hi),
            lo.le(hi) ==> lo.le(r) && r.le(hi),
    {
        let x = if self.x < lo.x {
            lo.x
        } else if self.x > hi.x {
            hi.x
        } else {
            self.x
        };
        let y = if self.y < lo.y {
            lo.y
        } else if self.y > hi.y {
            hi.y
        } else {
            self.y
        };
        Vec2 { x, y }
    }
}

/// An axis-aligned rectangle. The store's invariant keeps every stored
/// rectangle valid: `min` no larger than `max` on both axes.
#[derive(Clone, Copy, PartialEq, Eq, Structural, Debug)]
pub struct Rect {
    pub min: Vec2,
    pub max: Vec2,
}

impl Rect {
    /// The rectangle invariant: `min <= max` component-wise.
    pub open spec fn valid(self) -> bool {
        self.min.le(self.max)
    }

    pub open spec fn spec_size(self) -> Vec2 {
        self.max.spec_vsub(self.min)
    }

    pub fn new(min: Vec2, max: Vec2) -> (r: Rect)
        ensures
            r == (Rect { min, max }),
    {
        Rect { min, max }
    }

    /// The extent of the rectangle; non-negative whenever the rectangle
    /// is valid.
    pub fn size(&self) -> (s: Vec2)
        ensures
            s == self.spec_size(),
            self.valid() ==> s.x >= 0 && s.y >= 0,
    {
        self.max.vsub(self.min)
    }

    /// The rectangle moved by `offset`; keeps validity for offsets that
    /// stay in range.
    pub fn translate(&self, offset: Vec2) -> (r: Rect)
        ensures
            r == (Rect { min: self.min.spec_vadd(offset), max: self.max.spec_vadd(offset) }),
    {
        Rect { min: self.min.vadd(offset), max: self.max.vadd(offset) }
    }
}

impl Default for Rect {
    /// The empty rectangle at the origin.
    fn default() -> (r: Rect)
        ensures
            r == (Rect { min: Vec2 { x: 0, y: 0 }, max: Vec2 { x: 0, y: 0 } }),
            r.valid(),
    {
        Rect { min: Vec2 { x: 0, y: 0 }, max: Vec2 { x: 0, y: 0 } }
    }
}

/// The box of sizes a parent offers a child during layout solving:
/// the child must resolve to a size between `min` and `max`.
#[derive(Clone, Copy, PartialEq, Eq, Structural, Debug)]
pub struct LayoutLimits {
    pub min: Vec2,
    pub max: Vec2,
}

impl LayoutLimits {
    /// Limits are valid when they describe a non-empty band of
    /// non-negative sizes.
    pub open spec fn valid(self) -> bool {
        0 <= self.min.x && 0 <= self.min.y && self.min.le(self.max)
    }
}

} // verus!
