use vstd::prelude::*;

verus! {

/// A stored point. Points with equal coordinates are chained in one leaf.
#[derive(Clone, Copy, Debug, PartialEq, Eq, Structural)]
pub struct Point {
    pub x: i32,
    pub y: i32,
}

/// The corners of an axis-aligned region `[x0, x1) x [y0, y1)`.
#[derive(Clone, Copy, Debug, PartialEq, Eq, Structural)]
pub struct Bounds {
    pub x0: i64,
    pub y0: i64,
    pub x1: i64,
    pub y1: i64,
}

/// The mathematical square `[x0, x0 + side) x [y0, y0 + side)`.
pub struct Square {
    pub x0: int,
    pub y0: int,
    pub side: int,
}

pub open spec fn is_pow2(n: int) -> bool
    decreases n,
{
    if n <= 0 {
        false
    } else if n == 1 {
        true
    } else {
        n % 2 == 0 && is_pow2(n / 2)
    }
}

pub proof fn lemma_pow2_double(n: int)
    requires
        is_pow2(n),
    ensures
        is_pow2(2 * n),
{
    reveal_with_fuel(is_pow2, 2);
    assert((2 * n) / 2 == n);
}

pub proof fn lemma_pow2_half(n: int)
    requires
        is_pow2(n),
        n >= 2,
    ensures
        n % 2 == 0,
        is_pow2(n / 2),
        n / 2 >= 1,
{
    reveal_with_fuel(is_pow2, 2);
}

impl Square {
    pub open spec fn x1(self) -> int {
        self.x0 + self.side
    }

    pub open spec fn y1(self) -> int {
        self.y0 + self.side
    }

    pub open spec fn contains(self, x: int, y: int) -> bool {
        self.x0 <= x < self.x1() && self.y0 <= y < self.y1()
    }

    pub open spec fn within(self, outer: Square) -> bool {
        outer.x0 <= self.x0 && self.x1() <= outer.x1() && outer.y0 <= self.y0 && self.y1()
            <= outer.y1()
    }

    pub open spec fn half(self) -> int {
        self.side / 2
    }

    /// Quadrant index: bit 0 set on the right half, bit 1 set on the bottom half.
    pub open spec fn quadrant(self, x: int, y: int) -> int {
        (if y >= self.y0 + self.half() {
            2int
        } else {
            0int
        }) + (if x >= self.x0 + self.half() {
            1int
        } else {
            0int
        })
    }

    /// The sub-square for quadrant `i`.
    pub open spec fn child(self, i: int) -> Square {
        Square {
            x0: self.x0 + if i % 2 == 1 {
                self.half()
            } else {
                0
            },
            y0: self.y0 + if i >= 2 {
                self.half()
            } else {
                0
            },
            side: self.half(),
        }
    }

    /// A square whose side is a power of two.
    pub open spec fn valid(self) -> bool {
        self.side >= 1 && is_pow2(self.side)
    }
}

/// A point of a split square lies in exactly one quadrant, the one `quadrant` names.
pub proof fn lemma_quadrant(s: Square, x: int, y: int)
    requires
        s.valid(),
        s.side >= 2,
        s.contains(x, y),
    ensures
        0 <= s.quadrant(x, y) < 4,
        s.child(s.quadrant(x, y)).contains(x, y),
        forall|j: int| 0 <= j < 4 && j != s.quadrant(x, y) ==> !#[trigger] s.child(j).contains(x, y),
        forall|j: int| 0 <= j < 4 ==> #[trigger] s.child(j).valid() && s.child(j).within(s),
{
    lemma_pow2_half(s.side);
}

/// A square of side one holds a single integer point.
pub proof fn lemma_unit_square(s: Square, x: int, y: int, u: int, v: int)
    requires
        s.side == 1,
        s.contains(x, y),
        s.contains(u, v),
    ensures
        x == u && y == v,
{
}

impl Bounds {
    pub open spec fn view(self) -> Square {
        Square { x0: self.x0 as int, y0: self.y0 as int, side: self.x1 - self.x0 }
    }

    /// Corners that describe a valid square.
    pub open spec fn is_square(self) -> bool {
        self.x1 - self.x0 == self.y1 - self.y0 && self@.valid()
    }

    /// Corners far enough from the limits of `i64` that no step of a descent overflows.
    pub open spec fn fits(self) -> bool {
        -0x100_0000_0000 <= self.x0 && self.x1 <= 0x100_0000_0000 && -0x100_0000_0000 <= self.y0
            && self.y1 <= 0x100_0000_0000
    }

    /// Corners of the sub-square for quadrant `i`.
    pub open spec fn spec_child(self, i: int) -> Bounds {
        let half = (self.x1 - self.x0) / 2;
        let x0 = if i % 2 == 1 {
            self.x0 + half
        } else {
            self.x0 as int
        };
        let y0 = if i >= 2 {
            self.y0 + half
        } else {
            self.y0 as int
        };
        Bounds { x0: x0 as i64, y0: y0 as i64, x1: (x0 + half) as i64, y1: (y0 + half) as i64 }
    }

    /// The corners of a sub-square describe the sub-square itself.
    pub proof fn lemma_spec_child(self, i: int)
        requires
            self.is_square(),
            self.fits(),
            self.x1 - self.x0 >= 2,
            0 <= i < 4,
        ensures
            self.spec_child(i)@ == self@.child(i),
            self.spec_child(i).is_square(),
            self.spec_child(i).fits(),
    {
        lemma_pow2_half(self@.side);
    }

    /// Quadrant of the point `(x, y)` in this square.
    pub fn quadrant(&self, x: i32, y: i32) -> (i: usize)
        requires
            self.is_square(),
            self.fits(),
        ensures
            i == self@.quadrant(x as int, y as int),
            i < 4,
    {
        let half = (self.x1 - self.x0) / 2;
        let right: usize = if x as i64 >= self.x0 + half {
            1
        } else {
            0
        };
        let bottom: usize = if y as i64 >= self.y0 + half {
            2
        } else {
            0
        };
        bottom + right
    }

    /// Corners of the sub-square for quadrant `i`.
    pub fn child(&self, i: usize) -> (r: Bounds)
        requires
            self.is_square(),
            self.fits(),
            self.x1 - self.x0 >= 2,
            i < 4,
        ensures
            r@ == self@.child(i as int),
            r == self.spec_child(i as int),
            r.is_square(),
            r.fits(),
            r@.within(self@),
    {
        proof {
            lemma_pow2_half(self@.side);
        }
        let half = (self.x1 - self.x0) / 2;
        let x0 = if i % 2 == 1 {
            self.x0 + half
        } else {
            self.x0
        };
        let y0 = if i >= 2 {
            self.y0 + half
        } else {
            self.y0
        };
        Bounds { x0, y0, x1: x0 + half, y1: y0 + half }
    }
}

} // verus!
