use vstd::prelude::*;

verus! {

/// A cell of the grid, as (x, y).
#[derive(Clone, Copy, Debug, Default, Hash, PartialEq, Eq, Structural)]
pub struct Vec2(pub i32, pub i32);

/// Whether `a + b` fits in `i32` in both coordinates.
pub open spec fn add_fits(a: Vec2, b: Vec2) -> bool {
    i32::MIN <= a.0 + b.0 <= i32::MAX && i32::MIN <= a.1 + b.1 <= i32::MAX
}

/// The coordinate-wise sum.
pub open spec fn sum(a: Vec2, b: Vec2) -> Vec2 {
    Vec2((a.0 + b.0) as i32, (a.1 + b.1) as i32)
}

/// Whether `d` is one of the four unit directions.
pub open spec fn is_direction(d: Vec2) -> bool {
    (d.0 == 1 && d.1 == 0) || (d.0 == -1 && d.1 == 0) || (d.0 == 0 && d.1 == 1) || (d.0 == 0 && d.1
        == -1)
}

impl Vec2 {
    /// The coordinate-wise sum.
    pub fn add(self, other: Vec2) -> (r: Vec2)
        requires
            add_fits(self, other),
        ensures
            r == sum(self, other),
    {
        Vec2(self.0 + other.0, self.1 + other.1)
    }

    /// Moves `self` by `other`.
    pub fn add_assign(&mut self, other: Vec2)
        requires
            add_fits(*old(self), other),
        ensures
            *final(self) == sum(*old(self), other),
    {
        self.0 = self.0 + other.0;
        self.1 = self.1 + other.1;
    }
}

} // verus!
