use vstd::prelude::*;

use crate::geometry::{lemma_pow2_double, lemma_quadrant, Bounds, Point, Square};
use crate::node::{insert_shape, lemma_count_outside, lemma_one_leaf, lemma_widen, QuadtreeNode};

verus! {

/// How far `(x, y)` lies outside `s`, summed over both axes.
pub open spec fn dist(s: Square, x: int, y: int) -> int {
    (if x < s.x0 {
        s.x0 - x
    } else if x >= s.x1() {
        x - s.x1() + 1
    } else {
        0
    }) + (if y < s.y0 {
        s.y0 - y
    } else if y >= s.y1() {
        y - s.y1() + 1
    } else {
        0
    })
}

/// The quadrant that `s` takes in the square of twice its side grown towards `(x, y)`.
pub open spec fn growth_quadrant(s: Square, x: int, y: int) -> int {
    (if y < s.y0 {
        2int
    } else {
        0int
    }) + (if x < s.x0 {
        1int
    } else {
        0int
    })
}

/// One doubling of `s`: it extends left when `x` lies left of it, else right, and
/// up when `y` lies above it, else down.
pub open spec fn step(s: Square, x: int, y: int) -> Square {
    Square {
        x0: if x < s.x0 {
            s.x0 - s.side
        } else {
            s.x0
        },
        y0: if y < s.y0 {
            s.y0 - s.side
        } else {
            s.y0
        },
        side: 2 * s.side,
    }
}

/// The square after doubling `s` until it contains `(x, y)`.
pub open spec fn grow(s: Square, x: int, y: int) -> Square
    decreases dist(s, x, y),
{
    if s.side < 1 || s.contains(x, y) {
        s
    } else {
        grow(step(s, x, y), x, y)
    }
}

/// The bounds after covering `(x, y)`: the unit square at the point when there
/// were none, else the grown square.
pub open spec fn covered(b: Option<Square>, x: int, y: int) -> Square {
    match b {
        None => Square { x0: x, y0: y, side: 1 },
        Some(s) => grow(s, x, y),
    }
}

/// The root after the doubling steps that grow `s` to contain `(x, y)`: each
/// step places the previous root in quadrant `growth_quadrant` of a new internal
/// node whose other quadrants are empty.
pub open spec fn wrapped(n: QuadtreeNode, s: Square, x: int, y: int) -> QuadtreeNode
    decreases dist(s, x, y),
{
    if s.side < 1 || s.contains(x, y) {
        n
    } else {
        wrapped(n.wrap_at(growth_quadrant(s, x, y)), step(s, x, y), x, y)
    }
}

/// The root after covering `(x, y)`: only an internal root is wrapped; an empty
/// or leaf root stays the root of the grown square.
pub open spec fn cover_root(n: QuadtreeNode, b: Option<Square>, x: int, y: int) -> QuadtreeNode {
    match b {
        Some(s) => if n is Internal {
            wrapped(n, s, x, y)
        } else {
            n
        },
        None => n,
    }
}

/// The corners of the square `s`.
pub open spec fn corners(s: Square) -> Bounds {
    Bounds { x0: s.x0 as i64, y0: s.y0 as i64, x1: s.x1() as i64, y1: s.y1() as i64 }
}

pub open spec fn square_of(b: Option<Bounds>) -> Option<Square> {
    match b {
        None => None,
        Some(c) => Some(c@),
    }
}

/// Number of sides of `s` that lie beyond the range of point coordinates.
pub open spec fn full_sides(s: Square) -> int {
    (if s.x0 <= -0x8000_0000 {
        1int
    } else {
        0int
    }) + (if s.x1() >= 0x8000_0000 {
        1int
    } else {
        0int
    }) + (if s.y0 <= -0x8000_0000 {
        1int
    } else {
        0int
    }) + (if s.y1() >= 0x8000_0000 {
        1int
    } else {
        0int
    })
}

pub open spec fn side_cap(n: int) -> int {
    if n <= 0 {
        0x2_0000_0000
    } else if n == 1 {
        0x4_0000_0000
    } else if n == 2 {
        0x8_0000_0000
    } else if n == 3 {
        0x10_0000_0000
    } else {
        0x20_0000_0000
    }
}

impl Square {
    /// A valid square that meets the range of point coordinates, and whose side
    /// doubles only while it still has a side short of that range.
    pub open spec fn anchored(self) -> bool {
        self.valid() && self.x0 < 0x8000_0000 && self.x1() > -0x8000_0000 && self.y0
            < 0x8000_0000 && self.y1() > -0x8000_0000 && self.side <= side_cap(full_sides(self))
    }
}

pub open spec fn in_coord_range(x: int) -> bool {
    -0x8000_0000 <= x < 0x8000_0000
}

proof fn lemma_step(s: Square, x: int, y: int)
    requires
        s.valid(),
        !s.contains(x, y),
    ensures
        step(s, x, y).valid(),
        s.within(step(s, x, y)),
        step(s, x, y).child(growth_quadrant(s, x, y)) == s,
        0 <= growth_quadrant(s, x, y) < 4,
        0 <= dist(step(s, x, y), x, y) < dist(s, x, y),
        grow(step(s, x, y), x, y) == grow(s, x, y),
{
    lemma_pow2_double(s.side);
    assert((2 * s.side) / 2 == s.side);
}

proof fn lemma_step_anchored(s: Square, x: int, y: int)
    requires
        s.anchored(),
        !s.contains(x, y),
        in_coord_range(x),
        in_coord_range(y),
    ensures
        step(s, x, y).anchored(),
{
    lemma_step(s, x, y);
}

/// The grown square contains the point and the square it grew from.
pub proof fn lemma_grow(s: Square, x: int, y: int)
    requires
        s.valid(),
    ensures
        grow(s, x, y).contains(x, y),
        grow(s, x, y).valid(),
        s.within(grow(s, x, y)),
    decreases dist(s, x, y),
{
    if !s.contains(x, y) {
        lemma_step(s, x, y);
        lemma_grow(step(s, x, y), x, y);
    }
}

/// The bounds are defined and contain `(x, y)`.
pub open spec fn holds(b: Option<Bounds>, x: int, y: int) -> bool {
    match b {
        Some(c) => c@.contains(x, y),
        None => false,
    }
}

/// Smallest of the first `n` values of `s`.
pub open spec fn min_upto(s: Seq<i32>, n: int) -> int
    decreases n,
{
    if n <= 1 {
        s[0] as int
    } else if (s[n - 1] as int) < min_upto(s, n - 1) {
        s[n - 1] as int
    } else {
        min_upto(s, n - 1)
    }
}

/// Largest of the first `n` values of `s`.
pub open spec fn max_upto(s: Seq<i32>, n: int) -> int
    decreases n,
{
    if n <= 1 {
        s[0] as int
    } else if (s[n - 1] as int) > max_upto(s, n - 1) {
        s[n - 1] as int
    } else {
        max_upto(s, n - 1)
    }
}

/// How many of the first `n` pairs `(xs[k], ys[k])` equal `(a, b)`.
pub open spec fn occurrences(xs: Seq<i32>, ys: Seq<i32>, n: int, a: int, b: int) -> nat
    decreases n,
{
    if n <= 0 {
        0
    } else {
        occurrences(xs, ys, n - 1, a, b) + if xs[n - 1] == a && ys[n - 1] == b {
            1nat
        } else {
            0nat
        }
    }
}

/// Each tree of `trees` is what inserting the point `(xs[k], ys[k])` into the one
/// before it gives, in the square `s`.
pub open spec fn inserted_in_order(trees: Seq<QuadtreeNode>, s: Square, xs: Seq<i32>, ys: Seq<i32>) -> bool {
    forall|k: int|
        0 <= k < trees.len() - 1 ==> #[trigger] insert_shape(
            trees[k + 1],
            trees[k],
            s,
            Point { x: xs[k], y: ys[k] },
        )
}

/// The bounds after a batch whose points span `[lx, hx] x [ly, hy]`.
pub open spec fn covered_batch(b: Option<Square>, lx: int, ly: int, hx: int, hy: int) -> Square {
    covered(Some(covered(b, lx, ly)), hx, hy)
}

/// A node met by a traversal: its square, and for a leaf the coordinates it
/// holds and the length of its chain. An internal node has `points == 0`.
#[derive(Clone, Copy, Debug, PartialEq, Eq, Structural)]
pub struct Visit {
    pub bounds: Bounds,
    pub points: usize,
    pub x: i32,
    pub y: i32,
}

/// The non-empty nodes below `node`, which covers `b`, each before its quadrants,
/// which come in index order.
pub open spec fn preorder(node: QuadtreeNode, b: Bounds) -> Seq<Visit>
    decreases node,
{
    match node {
        QuadtreeNode::Empty => Seq::empty(),
        QuadtreeNode::Leaf(chain) => seq![
            Visit { bounds: b, points: chain@.len() as usize, x: chain@[0].x, y: chain@[0].y },
        ],
        QuadtreeNode::Internal(c0, c1, c2, c3) => seq![
            Visit { bounds: b, points: 0, x: 0, y: 0 },
        ] + preorder(*c0, b.spec_child(0)) + preorder(*c1, b.spec_child(1)) + preorder(
            *c2,
            b.spec_child(2),
        ) + preorder(*c3, b.spec_child(3)),
    }
}

/// Why an operation refused its input.
#[derive(Clone, Copy, Debug, PartialEq, Eq, Structural)]
pub enum QuadtreeError {
    /// The coordinate sequences of a batch differ in length.
    InvalidArgument,
    /// The point lies outside the bounding square, or there is none yet.
    OutOfBounds,
}

/// A point quadtree: a root node and the bounding square that covers it.
pub struct Quadtree {
    bounds: Option<Bounds>,
    root: QuadtreeNode,
}

impl Quadtree {
    /// The bounding square's corners, once defined.
    pub closed spec fn spec_bounds(&self) -> Option<Bounds> {
        self.bounds
    }

    /// The root node.
    pub closed spec fn root(&self) -> QuadtreeNode {
        self.root
    }

    /// The whole tree after covering `(x, y)`.
    pub closed spec fn after_cover(self, x: int, y: int) -> Quadtree {
        Quadtree {
            bounds: Some(corners(covered(square_of(self.bounds), x, y))),
            root: cover_root(self.root, square_of(self.bounds), x, y),
        }
    }

    /// How many stored points have the coordinates `(x, y)`.
    pub closed spec fn count(&self, x: int, y: int) -> nat {
        self.root.count(x, y)
    }

    /// How many leaves hold the coordinates `(x, y)`.
    pub closed spec fn leaves(&self, x: int, y: int) -> nat {
        self.root.leaves(x, y)
    }

    /// No bounds and no points, or an anchored square that the root fills.
    pub closed spec fn wf(&self) -> bool {
        match self.bounds {
            None => self.root is Empty,
            Some(b) => b.is_square() && b@.anchored() && self.root.wf(b@),
        }
    }

    /// An empty tree with undefined bounds.
    pub fn new() -> (r: Quadtree)
        ensures
            r.wf(),
            r.spec_bounds() is None,
            r.root() is Empty,
            forall|x: int, y: int| #[trigger] r.count(x, y) == 0,
    {
        Quadtree { bounds: None, root: QuadtreeNode::Empty }
    }

    /// The bounding square's corners, once defined.
    pub fn bounds(&self) -> (r: Option<Bounds>)
        ensures
            r == self.spec_bounds(),
    {
        self.bounds
    }

    /// Grows the bounding square by doubling until it contains `(x, y)`; the
    /// first call sets it to the unit square at the point.
    pub fn cover(&mut self, x: i32, y: i32)
        requires
            old(self).wf(),
        ensures
            final(self).wf(),
            final(self).spec_bounds() is Some,
            final(self).spec_bounds()->Some_0@ == covered(
                square_of(old(self).spec_bounds()),
                x as int,
                y as int,
            ),
            forall|a: int, b: int| #[trigger] final(self).count(a, b) == old(self).count(a, b),
            final(self).root() == cover_root(
                old(self).root(),
                square_of(old(self).spec_bounds()),
                x as int,
                y as int,
            ),
            *final(self) == old(self).after_cover(x as int, y as int),
            holds(old(self).spec_bounds(), x as int, y as int) ==> *final(self) == *old(self),
    {
        let ghost start = *self;
        match self.bounds {
            None => {
                self.bounds = Some(
                    Bounds { x0: x as i64, y0: y as i64, x1: x as i64 + 1, y1: y as i64 + 1 },
                );
                proof {
                    reveal_with_fuel(crate::geometry::is_pow2, 1);
                    assert(*self == start.after_cover(x as int, y as int));
                }
            },
            Some(b) => {
                let xx = x as i64;
                let yy = y as i64;
                let mut x0 = b.x0;
                let mut y0 = b.y0;
                let mut x1 = b.x1;
                let mut y1 = b.y1;
                let was_internal = match &self.root {
                    QuadtreeNode::Internal(..) => true,
                    _ => false,
                };
                let mut node = QuadtreeNode::Empty;
                std::mem::swap(&mut node, &mut self.root);
                let ghost old_root = node;
                while x0 > xx || xx >= x1 || y0 > yy || yy >= y1
                    invariant
                        xx == x as i64,
                        yy == y as i64,
                        (Bounds { x0, y0, x1, y1 }).is_square(),
                        (Bounds { x0, y0, x1, y1 })@.anchored(),
                        grow((Bounds { x0, y0, x1, y1 })@, x as int, y as int) == grow(
                            b@,
                            x as int,
                            y as int,
                        ),
                        node.wf((Bounds { x0, y0, x1, y1 })@),
                        was_internal == node is Internal,
                        was_internal ==> wrapped(node, (Bounds { x0, y0, x1, y1 })@, x as int, y as int)
                            == wrapped(old_root, b@, x as int, y as int),
                        !was_internal ==> node == old_root,
                        forall|a: int, c: int| #[trigger]
                            node.count(a, c) == old_root.count(a, c),
                    decreases dist((Bounds { x0, y0, x1, y1 })@, x as int, y as int),
                {
                    let ghost cur = (Bounds { x0, y0, x1, y1 })@;
                    let ghost prev = node;
                    proof {
                        lemma_step(cur, x as int, y as int);
                        lemma_step_anchored(cur, x as int, y as int);
                    }
                    let z = x1 - x0;
                    let i: usize = (if yy < y0 {
                        2
                    } else {
                        0
                    }) + (if xx < x0 {
                        1
                    } else {
                        0
                    });
                    if was_internal {
                        node = node.wrap(i);
                    }
                    if xx < x0 {
                        x0 = x1 - 2 * z;
                    } else {
                        x1 = x0 + 2 * z;
                    }
                    if yy < y0 {
                        y0 = y1 - 2 * z;
                    } else {
                        y1 = y0 + 2 * z;
                    }
                    proof {
                        let next = (Bounds { x0, y0, x1, y1 })@;
                        assert(next == step(cur, x as int, y as int));
                        if was_internal {
                            assert(node.child(0).wf(next.child(0)));
                            assert(node.child(1).wf(next.child(1)));
                            assert(node.child(2).wf(next.child(2)));
                            assert(node.child(3).wf(next.child(3)));
                            assert forall|a: int, c: int| #[trigger]
                                node.count(a, c) == old_root.count(a, c) by {
                                assert(node.count(a, c) == node.child(0).count(a, c) + node.child(
                                    1,
                                ).count(a, c) + node.child(2).count(a, c) + node.child(3).count(
                                    a,
                                    c,
                                ));
                            }
                        } else {
                            lemma_widen(prev, cur, next);
                        }
                    }
                }
                self.root = node;
                self.bounds = Some(Bounds { x0, y0, x1, y1 });
                proof {
                    let fin = Bounds { x0, y0, x1, y1 };
                    assert(corners(fin@) == fin);
                    assert(corners(b@) == b);
                    assert(*self == start.after_cover(x as int, y as int));
                }
            },
        }
    }

    /// Inserts the point `(x, y)`, which must lie inside the bounding square.
    pub fn add(&mut self, x: i32, y: i32) -> (r: Result<(), QuadtreeError>)
        requires
            old(self).wf(),
        ensures
            final(self).wf(),
            final(self).spec_bounds() == old(self).spec_bounds(),
            r == if holds(old(self).spec_bounds(), x as int, y as int) {
                Ok::<(), QuadtreeError>(())
            } else {
                Err(QuadtreeError::OutOfBounds)
            },
            forall|a: int, b: int| #[trigger]
                final(self).count(a, b) == old(self).count(a, b) + if r is Ok && a == x && b == y {
                    1nat
                } else {
                    0nat
                },
            r is Err ==> *final(self) == *old(self),
            r is Ok ==> insert_shape(
                final(self).root(),
                old(self).root(),
                old(self).spec_bounds()->Some_0@,
                Point { x, y },
            ),
    {
        match self.bounds {
            None => Err(QuadtreeError::OutOfBounds),
            Some(b) => {
                if (x as i64) < b.x0 || (x as i64) >= b.x1 || (y as i64) < b.y0 || (y as i64)
                    >= b.y1 {
                    return Err(QuadtreeError::OutOfBounds);
                }
                let mut node = QuadtreeNode::Empty;
                std::mem::swap(&mut node, &mut self.root);
                self.root = node.insert(b, Point { x, y });
                Ok(())
            },
        }
    }

    /// Inserts the points `(xs[k], ys[k])` in order, after covering the corners
    /// of their bounding box. Sequences of different lengths are refused.
    pub fn add_all(&mut self, xs: &Vec<i32>, ys: &Vec<i32>) -> (r: Result<(), QuadtreeError>)
        requires
            old(self).wf(),
        ensures
            final(self).wf(),
            xs@.len() != ys@.len() ==> r == Err::<(), QuadtreeError>(QuadtreeError::InvalidArgument)
                && *final(self) == *old(self),
            xs@.len() == ys@.len() && xs@.len() == 0 ==> r is Ok && *final(self) == *old(self),
            xs@.len() == ys@.len() && xs@.len() > 0 ==> {
                &&& r is Ok
                &&& final(self).spec_bounds() is Some
                &&& final(self).spec_bounds()->Some_0@ == covered_batch(
                    square_of(old(self).spec_bounds()),
                    min_upto(xs@, xs@.len() as int),
                    min_upto(ys@, ys@.len() as int),
                    max_upto(xs@, xs@.len() as int),
                    max_upto(ys@, ys@.len() as int),
                )
                &&& forall|a: int, b: int| #[trigger]
                    final(self).count(a, b) == old(self).count(a, b) + occurrences(
                        xs@,
                        ys@,
                        xs@.len() as int,
                        a,
                        b,
                    )
                &&& exists|trees: Seq<QuadtreeNode>|
                    {
                        &&& trees.len() == xs@.len() + 1
                        &&& trees[0] == old(self).after_cover(
                            min_upto(xs@, xs@.len() as int),
                            min_upto(ys@, ys@.len() as int),
                        ).after_cover(
                            max_upto(xs@, xs@.len() as int),
                            max_upto(ys@, ys@.len() as int),
                        ).root()
                        &&& trees.last() == final(self).root()
                        &&& inserted_in_order(trees, final(self).spec_bounds()->Some_0@, xs@, ys@)
                    }
            },
    {
        if xs.len() != ys.len() {
            return Err(QuadtreeError::InvalidArgument);
        }
        let n = xs.len();
        if n == 0 {
            return Ok(());
        }
        let mut lo_x = xs[0];
        let mut hi_x = xs[0];
        let mut lo_y = ys[0];
        let mut hi_y = ys[0];
        let mut k: usize = 1;
        while k < n
            invariant
                1 <= k <= n,
                n == xs@.len(),
                n == ys@.len(),
                lo_x == min_upto(xs@, k as int),
                hi_x == max_upto(xs@, k as int),
                lo_y == min_upto(ys@, k as int),
                hi_y == max_upto(ys@, k as int),
                forall|j: int| 0 <= j < k ==> lo_x <= #[trigger] xs@[j] <= hi_x,
                forall|j: int| 0 <= j < k ==> lo_y <= #[trigger] ys@[j] <= hi_y,
            decreases n - k,
        {
            if xs[k] < lo_x {
                lo_x = xs[k];
            }
            if xs[k] > hi_x {
                hi_x = xs[k];
            }
            if ys[k] < lo_y {
                lo_y = ys[k];
            }
            if ys[k] > hi_y {
                hi_y = ys[k];
            }
            k = k + 1;
        }
        let ghost start = *self;
        self.cover(lo_x, lo_y);
        let ghost first = self.spec_bounds()->Some_0@;
        self.cover(hi_x, hi_y);
        let ghost whole = self.spec_bounds();
        proof {
            if let Some(s0) = square_of(start.spec_bounds()) {
                lemma_grow(s0, lo_x as int, lo_y as int);
            }
            lemma_grow(first, hi_x as int, hi_y as int);
            let w = whole->Some_0@;
            assert forall|j: int| 0 <= j < n implies w.contains(
                #[trigger] xs@[j] as int,
                ys@[j] as int,
            ) by {
                assert(lo_x <= xs@[j] <= hi_x);
                assert(lo_y <= ys@[j] <= hi_y);
            }
        }
        let ghost mut trees: Seq<QuadtreeNode> = seq![self.root()];
        let mut k: usize = 0;
        while k < n
            invariant
                k <= n,
                n == xs@.len(),
                n == ys@.len(),
                self.wf(),
                self.spec_bounds() == whole,
                trees.len() == k + 1,
                trees[0] == start.after_cover(lo_x as int, lo_y as int).after_cover(
                    hi_x as int,
                    hi_y as int,
                ).root(),
                trees.last() == self.root(),
                inserted_in_order(trees, whole->Some_0@, xs@, ys@),
                whole is Some,
                forall|j: int| 0 <= j < n ==> whole->Some_0@.contains(
                    #[trigger] xs@[j] as int,
                    ys@[j] as int,
                ),
                forall|a: int, b: int| #[trigger]
                    self.count(a, b) == start.count(a, b) + occurrences(xs@, ys@, k as int, a, b),
            decreases n - k,
        {
            let ghost prev = trees;
            let _ = self.add(xs[k], ys[k]);
            proof {
                trees = trees.push(self.root());
                assert forall|j: int| 0 <= j < trees.len() - 1 implies #[trigger] insert_shape(
                    trees[j + 1],
                    trees[j],
                    whole->Some_0@,
                    Point { x: xs@[j], y: ys@[j] },
                ) by {
                    if j < prev.len() - 1 {
                        assert(insert_shape(
                            prev[j + 1],
                            prev[j],
                            whole->Some_0@,
                            Point { x: xs@[j], y: ys@[j] },
                        ));
                    }
                }
            }
            k = k + 1;
        }
        assert(trees.len() == xs@.len() + 1);
        Ok(())
    }

    /// Covers both corners of the box `[[x_a, y_a], [x_b, y_b]]`, in that order.
    pub fn extent(&mut self, corners: [[i32; 2]; 2])
        requires
            old(self).wf(),
        ensures
            final(self).wf(),
            final(self).spec_bounds() is Some,
            final(self).spec_bounds()->Some_0@ == covered(
                Some(
                    covered(
                        square_of(old(self).spec_bounds()),
                        corners[0][0] as int,
                        corners[0][1] as int,
                    ),
                ),
                corners[1][0] as int,
                corners[1][1] as int,
            ),
            forall|a: int, b: int| #[trigger] final(self).count(a, b) == old(self).count(a, b),
            *final(self) == old(self).after_cover(corners[0][0] as int, corners[0][1] as int).after_cover(
                corners[1][0] as int,
                corners[1][1] as int,
            ),
    {
        self.cover(corners[0][0], corners[0][1]);
        self.cover(corners[1][0], corners[1][1]);
    }

    /// The nodes that `visit` reports.
    pub closed spec fn visits(&self) -> Seq<Visit> {
        match self.bounds {
            None => Seq::empty(),
            Some(b) => preorder(self.root, b),
        }
    }

    /// Walks the tree in pre-order and reports every non-empty node with its square.
    pub fn visit(&self) -> (r: Vec<Visit>)
        requires
            self.wf(),
        ensures
            r@ == self.visits(),
    {
        let mut out: Vec<Visit> = Vec::new();
        if let Some(b) = self.bounds {
            visit_node(&self.root, b, &mut out);
            assert(out@ =~= preorder(self.root, b));
        }
        out
    }

    /// How many stored points have the coordinates `(x, y)`.
    pub fn count_at(&self, x: i32, y: i32) -> (r: usize)
        requires
            self.wf(),
        ensures
            r == self.count(x as int, y as int),
    {
        match self.bounds {
            None => 0,
            Some(b) => count_in(&self.root, b, x, y),
        }
    }
}

/// The square `v` lies inside the square `b`.
pub open spec fn inside(v: Bounds, b: Bounds) -> bool {
    b.x0 <= v.x0 && v.x1 <= b.x1 && b.y0 <= v.y0 && v.y1 <= b.y1
}

/// Index of the entry of a pre-order traversal to report after `visits[k]`.
/// When `skip` is set and that entry is an internal node, its quadrants are
/// passed over: the entries right after it whose squares lie inside its own.
pub fn next_visit(visits: &Vec<Visit>, k: usize, skip: bool) -> (r: usize)
    requires
        k < visits@.len(),
    ensures
        k < r <= visits@.len(),
        !(skip && visits@[k as int].points == 0) ==> r == k + 1,
        skip && visits@[k as int].points == 0 ==> {
            &&& forall|j: int| k < j < r ==> inside(#[trigger] visits@[j].bounds, visits@[k as int].bounds)
            &&& r < visits@.len() ==> !inside(visits@[r as int].bounds, visits@[k as int].bounds)
        },
{
    let n = visits.len();
    if !(skip && visits[k].points == 0) {
        return k + 1;
    }
    let b = visits[k].bounds;
    let mut r = k + 1;
    while r < n
        invariant
            n == visits@.len(),
            skip && visits@[k as int].points == 0,
            k < r <= visits@.len(),
            b == visits@[k as int].bounds,
            forall|j: int| k < j < r ==> inside(#[trigger] visits@[j].bounds, b),
        decreases visits@.len() - r,
    {
        let v = visits[r].bounds;
        if !(b.x0 <= v.x0 && v.x1 <= b.x1 && b.y0 <= v.y0 && v.y1 <= b.y1) {
            return r;
        }
        r = r + 1;
    }
    r
}

fn visit_node(node: &QuadtreeNode, b: Bounds, out: &mut Vec<Visit>)
    requires
        node.wf(b@),
        b.is_square(),
        b.fits(),
    ensures
        final(out)@ == old(out)@ + preorder(*node, b),
    decreases node,
{
    let ghost start = out@;
    match node {
        QuadtreeNode::Empty => {
            assert(out@ =~= start + preorder(*node, b));
        },
        QuadtreeNode::Leaf(chain) => {
            out.push(Visit { bounds: b, points: chain.len(), x: chain[0].x, y: chain[0].y });
            assert(out@ =~= start + preorder(*node, b));
        },
        QuadtreeNode::Internal(c0, c1, c2, c3) => {
            out.push(Visit { bounds: b, points: 0, x: 0, y: 0 });
            visit_node(c0, b.child(0), out);
            visit_node(c1, b.child(1), out);
            visit_node(c2, b.child(2), out);
            visit_node(c3, b.child(3), out);
            assert(out@ =~= start + preorder(*node, b));
        },
    }
}

fn count_in(node: &QuadtreeNode, b: Bounds, x: i32, y: i32) -> (r: usize)
    requires
        node.wf(b@),
        b.is_square(),
        b.fits(),
    ensures
        r == node.count(x as int, y as int),
    decreases node,
{
    match node {
        QuadtreeNode::Empty => 0,
        QuadtreeNode::Leaf(chain) => {
            if chain[0].x == x && chain[0].y == y {
                chain.len()
            } else {
                0
            }
        },
        QuadtreeNode::Internal(c0, c1, c2, c3) => {
            if (x as i64) < b.x0 || (x as i64) >= b.x1 || (y as i64) < b.y0 || (y as i64) >= b.y1 {
                proof {
                    lemma_count_outside(*node, b@, x as int, y as int);
                }
                return 0;
            }
            proof {
                lemma_quadrant(b@, x as int, y as int);
                let q = b@.quadrant(x as int, y as int);
                if q != 0 {
                    lemma_count_outside(**c0, b@.child(0), x as int, y as int);
                }
                if q != 1 {
                    lemma_count_outside(**c1, b@.child(1), x as int, y as int);
                }
                if q != 2 {
                    lemma_count_outside(**c2, b@.child(2), x as int, y as int);
                }
                if q != 3 {
                    lemma_count_outside(**c3, b@.child(3), x as int, y as int);
                }
            }
            let i = b.quadrant(x, y);
            let sub = b.child(i);
            if i == 0 {
                count_in(c0, sub, x, y)
            } else if i == 1 {
                count_in(c1, sub, x, y)
            } else if i == 2 {
                count_in(c2, sub, x, y)
            } else {
                count_in(c3, sub, x, y)
            }
        },
    }
}

proof fn lemma_preorder_finds(node: QuadtreeNode, b: Bounds, x: int, y: int) -> (k: int)
    requires
        node.wf(b@),
        b.is_square(),
        b.fits(),
        node.count(x, y) > 0,
    ensures
        0 <= k < preorder(node, b).len(),
        preorder(node, b)[k].points == node.count(x, y) as usize,
        preorder(node, b)[k].x == x,
        preorder(node, b)[k].y == y,
    decreases node,
{
    match node {
        QuadtreeNode::Internal(c0, c1, c2, c3) => {
            let p0 = preorder(*c0, b.spec_child(0));
            let p1 = preorder(*c1, b.spec_child(1));
            let p2 = preorder(*c2, b.spec_child(2));
            let p3 = preorder(*c3, b.spec_child(3));
            let head = seq![Visit { bounds: b, points: 0, x: 0, y: 0 }];
            let all = head + p0 + p1 + p2 + p3;
            assert(preorder(node, b) == all);
            b.lemma_spec_child(0);
            b.lemma_spec_child(1);
            b.lemma_spec_child(2);
            b.lemma_spec_child(3);
            lemma_one_leaf(node, b@, x, y);
            lemma_quadrant(b@, x, y);
            let q = b@.quadrant(x, y);
            if q != 0 {
                lemma_count_outside(*c0, b@.child(0), x, y);
            }
            if q != 1 {
                lemma_count_outside(*c1, b@.child(1), x, y);
            }
            if q != 2 {
                lemma_count_outside(*c2, b@.child(2), x, y);
            }
            if q != 3 {
                lemma_count_outside(*c3, b@.child(3), x, y);
            }
            if q == 0 {
                let j = lemma_preorder_finds(*c0, b.spec_child(0), x, y);
                assert(all[1 + j] == p0[j]);
                1 + j
            } else if q == 1 {
                let j = lemma_preorder_finds(*c1, b.spec_child(1), x, y);
                assert(all[1 + p0.len() + j] == p1[j]);
                1 + p0.len() + j
            } else if q == 2 {
                let j = lemma_preorder_finds(*c2, b.spec_child(2), x, y);
                assert(all[1 + p0.len() + p1.len() + j] == p2[j]);
                1 + p0.len() + p1.len() + j
            } else {
                let j = lemma_preorder_finds(*c3, b.spec_child(3), x, y);
                assert(all[1 + p0.len() + p1.len() + p2.len() + j] == p3[j]);
                1 + p0.len() + p1.len() + p2.len() + j
            }
        },
        _ => 0,
    }
}

/// Every stored point is reported by the traversal, in a leaf that holds all
/// the points at its coordinates.
pub proof fn lemma_visit_finds(t: &Quadtree, x: int, y: int) -> (k: int)
    requires
        t.wf(),
        t.count(x, y) > 0,
    ensures
        0 <= k < t.visits().len(),
        t.visits()[k].points == t.count(x, y) as usize,
        t.visits()[k].x == x,
        t.visits()[k].y == y,
{
    let b = t.bounds->Some_0;
    lemma_preorder_finds(t.root, b, x, y)
}

proof fn lemma_preorder_parent(node: QuadtreeNode, b: Bounds, k: int) -> (jq: (int, int))
    requires
        0 < k < preorder(node, b).len(),
    ensures
        0 <= jq.0 < k,
        0 <= jq.1 < 4,
        preorder(node, b)[jq.0].points == 0,
        preorder(node, b)[k].bounds == preorder(node, b)[jq.0].bounds.spec_child(jq.1),
    decreases node,
{
    match node {
        QuadtreeNode::Internal(c0, c1, c2, c3) => {
            let p0 = preorder(*c0, b.spec_child(0));
            let p1 = preorder(*c1, b.spec_child(1));
            let p2 = preorder(*c2, b.spec_child(2));
            let p3 = preorder(*c3, b.spec_child(3));
            let head = seq![Visit { bounds: b, points: 0, x: 0, y: 0 }];
            let all = head + p0 + p1 + p2 + p3;
            assert(preorder(node, b) == all);
            let o1 = 1 + p0.len();
            let o2 = o1 + p1.len();
            let o3 = o2 + p2.len();
            if k < o1 {
                assert(all[k] == p0[k - 1]);
                if k == 1 {
                    (0, 0)
                } else {
                    let (j, q) = lemma_preorder_parent(*c0, b.spec_child(0), k - 1);
                    assert(all[1 + j] == p0[j]);
                    (1 + j, q)
                }
            } else if k < o2 {
                assert(all[k] == p1[k - o1]);
                if k == o1 {
                    (0, 1)
                } else {
                    let (j, q) = lemma_preorder_parent(*c1, b.spec_child(1), k - o1);
                    assert(all[o1 + j] == p1[j]);
                    (o1 + j, q)
                }
            } else if k < o3 {
                assert(all[k] == p2[k - o2]);
                if k == o2 {
                    (0, 2)
                } else {
                    let (j, q) = lemma_preorder_parent(*c2, b.spec_child(2), k - o2);
                    assert(all[o2 + j] == p2[j]);
                    (o2 + j, q)
                }
            } else {
                assert(all[k] == p3[k - o3]);
                if k == o3 {
                    (0, 3)
                } else {
                    let (j, q) = lemma_preorder_parent(*c3, b.spec_child(3), k - o3);
                    assert(all[o3 + j] == p3[j]);
                    (o3 + j, q)
                }
            }
        },
        _ => (0, 0),
    }
}

/// A tree without bounds is reported by no visit.
pub proof fn lemma_visit_empty(t: &Quadtree)
    requires
        t.wf(),
        t.spec_bounds() is None,
    ensures
        t.visits().len() == 0,
{
}

/// The first visit is the root, with the bounding square.
pub proof fn lemma_visit_root(t: &Quadtree)
    requires
        t.wf(),
        t.visits().len() > 0,
    ensures
        t.spec_bounds() is Some,
        t.visits()[0].bounds == t.spec_bounds()->Some_0,
        t.root() is Internal ==> t.visits()[0].points == 0,
{
}

/// Every visit after the first has its parent, an internal node whose quadrant
/// `q` it is, reported before it; so all its ancestors come before it.
pub proof fn lemma_visit_parent(t: &Quadtree, k: int) -> (jq: (int, int))
    requires
        t.wf(),
        0 < k < t.visits().len(),
    ensures
        0 <= jq.0 < k,
        0 <= jq.1 < 4,
        t.visits()[jq.0].points == 0,
        t.visits()[k].bounds == t.visits()[jq.0].bounds.spec_child(jq.1),
{
    lemma_preorder_parent(t.root, t.bounds->Some_0, k)
}

/// Every stored point lies inside the bounding square.
pub proof fn lemma_points_in_bounds(t: &Quadtree, x: int, y: int)
    requires
        t.wf(),
        t.count(x, y) > 0,
    ensures
        holds(t.spec_bounds(), x, y),
{
    if let Some(b) = t.bounds {
        lemma_one_leaf(t.root, b@, x, y);
    }
}

/// Defined bounds are always a square.
pub proof fn lemma_square(t: &Quadtree)
    requires
        t.wf(),
        t.spec_bounds() is Some,
    ensures
        t.spec_bounds()->Some_0.x1 - t.spec_bounds()->Some_0.x0 == t.spec_bounds()->Some_0.y1
            - t.spec_bounds()->Some_0.y0,
        t.spec_bounds()->Some_0.x1 - t.spec_bounds()->Some_0.x0 >= 1,
{
}

/// Covering a point that the bounds already contain leaves the whole tree,
/// bounds and root, as it is.
pub proof fn lemma_cover_idempotent(t: &Quadtree, x: int, y: int)
    requires
        t.wf(),
        holds(t.spec_bounds(), x, y),
    ensures
        covered(square_of(t.spec_bounds()), x, y) == t.spec_bounds()->Some_0@,
        t.after_cover(x, y) == *t,
{
    let b = t.bounds->Some_0;
    assert(corners(b@) == b);
}

proof fn lemma_grow_anchored(s: Square, x: int, y: int)
    requires
        s.anchored(),
        in_coord_range(x),
        in_coord_range(y),
    ensures
        grow(s, x, y).anchored(),
    decreases dist(s, x, y),
{
    if !s.contains(x, y) {
        lemma_step(s, x, y);
        lemma_step_anchored(s, x, y);
        lemma_grow_anchored(step(s, x, y), x, y);
    }
}

/// Covering the same point twice has the effect of covering it once.
pub proof fn lemma_cover_twice(t: &Quadtree, x: int, y: int)
    requires
        t.wf(),
        in_coord_range(x),
        in_coord_range(y),
    ensures
        t.after_cover(x, y).after_cover(x, y) == t.after_cover(x, y),
{
    let sq = covered(square_of(t.bounds), x, y);
    match t.bounds {
        Some(b) => {
            lemma_grow(b@, x, y);
            lemma_grow_anchored(b@, x, y);
        },
        None => {
            reveal_with_fuel(crate::geometry::is_pow2, 1);
        },
    }
    assert(corners(sq)@ == sq);
}

/// Each stored coordinate is held by exactly one leaf, and absent ones by none.
pub proof fn lemma_one_leaf_per_point(t: &Quadtree, x: int, y: int)
    requires
        t.wf(),
    ensures
        t.leaves(x, y) <= 1,
        t.count(x, y) > 0 <==> t.leaves(x, y) == 1,
{
    if let Some(b) = t.bounds {
        lemma_one_leaf(t.root, b@, x, y);
    }
}

/// Points inserted at one coordinate share a single leaf.
pub proof fn lemma_coincident_chain(t: &Quadtree, x: int, y: int)
    requires
        t.wf(),
        t.count(x, y) >= 2,
    ensures
        t.leaves(x, y) == 1,
{
    lemma_one_leaf_per_point(t, x, y);
}

/// Two distinct stored coordinates, however close, each have a leaf of their own.
pub proof fn lemma_distinct_points_separate(t: &Quadtree, x: int, y: int, u: int, v: int)
    requires
        t.wf(),
        t.count(x, y) > 0,
        t.count(u, v) > 0,
        x != u || y != v,
    ensures
        t.leaves(x, y) == 1,
        t.leaves(u, v) == 1,
{
    lemma_one_leaf_per_point(t, x, y);
    lemma_one_leaf_per_point(t, u, v);
}

} // verus!
