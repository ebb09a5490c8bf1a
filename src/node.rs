use vstd::prelude::*;

use crate::geometry::{lemma_quadrant, lemma_unit_square, Bounds, Point, Square};

verus! {

/// A node of the tree: nothing, a chain of coincident points, or four quadrants.
pub enum QuadtreeNode {
    Internal(Box<QuadtreeNode>, Box<QuadtreeNode>, Box<QuadtreeNode>, Box<QuadtreeNode>),
    Leaf(Vec<Point>),
    Empty,
}

/// `r` is what separating the chain `c` from the new point `p` inside `s` gives:
/// one new internal node per level down to the first level where the two fall
/// in different quadrants, where the chain and a leaf of `p` stand side by side.
pub open spec fn split_shape(r: QuadtreeNode, s: Square, c: Seq<Point>, p: Point) -> bool
    decreases s.side,
{
    if s.side < 2 {
        false
    } else {
        let i = s.quadrant(p.x as int, p.y as int);
        let j = s.quadrant(c[0].x as int, c[0].y as int);
        &&& r is Internal
        &&& forall|k: int| 0 <= k < 4 && k != i && k != j ==> #[trigger] r.child(k) is Empty
        &&& if i != j {
            &&& r.child(j) is Leaf
            &&& r.child(j)->Leaf_0@ == c
            &&& r.child(i) is Leaf
            &&& r.child(i)->Leaf_0@ == seq![p]
        } else {
            split_shape(r.child(i), s.child(i), c, p)
        }
    }
}

/// `r` is what inserting `p` into `n`, which covers `s`, gives: a new leaf in an
/// empty place, the point appended to a leaf of equal coordinates, a split of a
/// leaf of other coordinates, or the insertion into the quadrant of `p`.
pub open spec fn insert_shape(r: QuadtreeNode, n: QuadtreeNode, s: Square, p: Point) -> bool
    decreases n,
{
    match n {
        QuadtreeNode::Empty => r is Leaf && r->Leaf_0@ == seq![p],
        QuadtreeNode::Leaf(c) => if c@[0].x == p.x && c@[0].y == p.y {
            r is Leaf && r->Leaf_0@ == c@.push(p)
        } else {
            split_shape(r, s, c@, p)
        },
        QuadtreeNode::Internal(a, b, c, d) => {
            let i = s.quadrant(p.x as int, p.y as int);
            &&& r is Internal
            &&& forall|k: int| 0 <= k < 4 && k != i ==> #[trigger] r.child(k) == n.child(k)
            &&& if i == 0 {
                insert_shape(r.child(0), *a, s.child(0), p)
            } else if i == 1 {
                insert_shape(r.child(1), *b, s.child(1), p)
            } else if i == 2 {
                insert_shape(r.child(2), *c, s.child(2), p)
            } else {
                insert_shape(r.child(3), *d, s.child(3), p)
            }
        },
    }
}

impl QuadtreeNode {
    /// Child `i` of an internal node.
    pub open spec fn child(self, i: int) -> QuadtreeNode {
        match self {
            QuadtreeNode::Internal(a, b, c, d) => if i == 0 {
                *a
            } else if i == 1 {
                *b
            } else if i == 2 {
                *c
            } else {
                *d
            },
            _ => QuadtreeNode::Empty,
        }
    }

    /// How many stored points have the coordinates `(x, y)`.
    pub open spec fn count(self, x: int, y: int) -> nat
        decreases self,
    {
        match self {
            QuadtreeNode::Internal(a, b, c, d) => a.count(x, y) + b.count(x, y) + c.count(x, y)
                + d.count(x, y),
            QuadtreeNode::Leaf(chain) => if chain@.len() > 0 && chain@[0].x == x && chain@[0].y
                == y {
                chain@.len()
            } else {
                0
            },
            QuadtreeNode::Empty => 0,
        }
    }

    /// How many leaves hold the coordinates `(x, y)`.
    pub open spec fn leaves(self, x: int, y: int) -> nat
        decreases self,
    {
        match self {
            QuadtreeNode::Internal(a, b, c, d) => a.leaves(x, y) + b.leaves(x, y) + c.leaves(x, y)
                + d.leaves(x, y),
            QuadtreeNode::Leaf(chain) => if chain@.len() > 0 && chain@[0].x == x && chain@[0].y
                == y {
                1
            } else {
                0
            },
            QuadtreeNode::Empty => 0,
        }
    }

    /// The node is well formed as the content of the square `s`: a leaf chain is
    /// non-empty, coincident and inside `s`; an internal node splits `s` into quadrants.
    pub open spec fn wf(self, s: Square) -> bool
        decreases self,
    {
        match self {
            QuadtreeNode::Internal(a, b, c, d) => s.side >= 2 && a.wf(s.child(0)) && b.wf(
                s.child(1),
            ) && c.wf(s.child(2)) && d.wf(s.child(3)),
            QuadtreeNode::Leaf(chain) => chain@.len() > 0 && s.contains(
                chain@[0].x as int,
                chain@[0].y as int,
            ) && forall|k: int| 0 <= k < chain@.len() ==> #[trigger] chain@[k] == chain@[0],
            QuadtreeNode::Empty => true,
        }
    }

    /// A new internal node whose four quadrants are empty.
    pub fn init_node() -> (r: QuadtreeNode)
        ensures
            r is Internal,
            forall|i: int| 0 <= i < 4 ==> #[trigger] r.child(i) is Empty,
    {
        QuadtreeNode::Internal(
            Box::new(QuadtreeNode::Empty),
            Box::new(QuadtreeNode::Empty),
            Box::new(QuadtreeNode::Empty),
            Box::new(QuadtreeNode::Empty),
        )
    }

    /// A new internal node with `self` in quadrant `i` and the others empty.
    pub open spec fn wrap_at(self, i: int) -> QuadtreeNode {
        let e = QuadtreeNode::Empty;
        if i == 0 {
            QuadtreeNode::Internal(Box::new(self), Box::new(e), Box::new(e), Box::new(e))
        } else if i == 1 {
            QuadtreeNode::Internal(Box::new(e), Box::new(self), Box::new(e), Box::new(e))
        } else if i == 2 {
            QuadtreeNode::Internal(Box::new(e), Box::new(e), Box::new(self), Box::new(e))
        } else {
            QuadtreeNode::Internal(Box::new(e), Box::new(e), Box::new(e), Box::new(self))
        }
    }

    /// Places this node in quadrant `i` of a new internal node.
    pub fn wrap(self, i: usize) -> (r: QuadtreeNode)
        requires
            i < 4,
        ensures
            r == self.wrap_at(i as int),
    {
        let e0 = Box::new(QuadtreeNode::Empty);
        let e1 = Box::new(QuadtreeNode::Empty);
        let e2 = Box::new(QuadtreeNode::Empty);
        if i == 0 {
            QuadtreeNode::Internal(Box::new(self), e0, e1, e2)
        } else if i == 1 {
            QuadtreeNode::Internal(e0, Box::new(self), e1, e2)
        } else if i == 2 {
            QuadtreeNode::Internal(e0, e1, Box::new(self), e2)
        } else {
            QuadtreeNode::Internal(e0, e1, e2, Box::new(self))
        }
    }

    /// Replaces child `i` of an internal node.
    pub fn with_child(self, i: usize, child: QuadtreeNode) -> (r: QuadtreeNode)
        requires
            self is Internal,
            i < 4,
        ensures
            r is Internal,
            r.child(i as int) == child,
            forall|j: int| 0 <= j < 4 && j != i ==> #[trigger] r.child(j) == self.child(j),
    {
        match self {
            QuadtreeNode::Internal(a, b, c, d) => if i == 0 {
                QuadtreeNode::Internal(Box::new(child), b, c, d)
            } else if i == 1 {
                QuadtreeNode::Internal(a, Box::new(child), c, d)
            } else if i == 2 {
                QuadtreeNode::Internal(a, b, Box::new(child), d)
            } else {
                QuadtreeNode::Internal(a, b, c, Box::new(child))
            },
            _ => self,
        }
    }

    /// Takes child `i` out of an internal node, leaving an empty quadrant.
    fn take_child(self, i: usize) -> (r: (QuadtreeNode, QuadtreeNode))
        requires
            self is Internal,
            i < 4,
        ensures
            r.0 is Internal,
            r.0.child(i as int) is Empty,
            r.1 == self.child(i as int),
            forall|j: int| 0 <= j < 4 && j != i ==> #[trigger] r.0.child(j) == self.child(j),
    {
        match self {
            QuadtreeNode::Internal(a, b, c, d) => {
                let e = Box::new(QuadtreeNode::Empty);
                if i == 0 {
                    (QuadtreeNode::Internal(e, b, c, d), *a)
                } else if i == 1 {
                    (QuadtreeNode::Internal(a, e, c, d), *b)
                } else if i == 2 {
                    (QuadtreeNode::Internal(a, b, e, d), *c)
                } else {
                    (QuadtreeNode::Internal(a, b, c, e), *d)
                }
            },
            _ => (self, QuadtreeNode::Empty),
        }
    }

    /// Inserts `p` below this node, which covers the square `b`.
    pub fn insert(self, b: Bounds, p: Point) -> (r: QuadtreeNode)
        requires
            self.wf(b@),
            b.is_square(),
            b.fits(),
            b@.contains(p.x as int, p.y as int),
        ensures
            r.wf(b@),
            !(r is Empty),
            insert_shape(r, self, b@, p),
            forall|x: int, y: int| #[trigger]
                r.count(x, y) == self.count(x, y) + if x == p.x && y == p.y {
                    1nat
                } else {
                    0nat
                },
        decreases self,
    {
        match self {
            QuadtreeNode::Empty => {
                let chain = vec![p];
                assert(chain@ =~= seq![p]);
                QuadtreeNode::Leaf(chain)
            },
            QuadtreeNode::Leaf(mut chain) => {
                if chain[0].x == p.x && chain[0].y == p.y {
                    chain.push(p);
                    let r = QuadtreeNode::Leaf(chain);
                    assert(r.wf(b@)) by {
                        assert forall|k: int| 0 <= k < chain@.len() implies #[trigger] chain@[k]
                            == chain@[0] by {
                            if k < chain@.len() - 1 {
                                assert(self.wf(b@));
                            }
                        }
                    }
                    r
                } else {
                    QuadtreeNode::split(chain, b, p)
                }
            },
            QuadtreeNode::Internal(..) => {
                let ghost old_node = self;
                let i = b.quadrant(p.x, p.y);
                proof {
                    lemma_quadrant(b@, p.x as int, p.y as int);
                }
                let sub = b.child(i);
                let (rest, child) = self.take_child(i);
                let grown = child.insert(sub, p);
                let r = rest.with_child(i, grown);
                proof {
                    assert(r.child(0).wf(b@.child(0)));
                    assert(r.child(1).wf(b@.child(1)));
                    assert(r.child(2).wf(b@.child(2)));
                    assert(r.child(3).wf(b@.child(3)));
                    assert forall|x: int, y: int| #[trigger]
                        r.count(x, y) == old_node.count(x, y) + if x == p.x && y == p.y {
                            1nat
                        } else {
                            0nat
                        } by {
                        assert(r.count(x, y) == r.child(0).count(x, y) + r.child(1).count(x, y)
                            + r.child(2).count(x, y) + r.child(3).count(x, y));
                        assert(old_node.count(x, y) == old_node.child(0).count(x, y)
                            + old_node.child(1).count(x, y) + old_node.child(2).count(x, y)
                            + old_node.child(3).count(x, y));
                    }
                }
                r
            },
        }
    }

    /// Separates the chain `chain` from the new point `p` inside the square `b`,
    /// subdividing until the two fall in different quadrants.
    fn split(chain: Vec<Point>, b: Bounds, p: Point) -> (r: QuadtreeNode)
        requires
            QuadtreeNode::Leaf(chain).wf(b@),
            b.is_square(),
            b.fits(),
            b@.contains(p.x as int, p.y as int),
            chain@[0].x != p.x || chain@[0].y != p.y,
        ensures
            r.wf(b@),
            r is Internal,
            split_shape(r, b@, chain@, p),
            forall|x: int, y: int| #[trigger]
                r.count(x, y) == QuadtreeNode::Leaf(chain).count(x, y) + if x == p.x && y
                    == p.y {
                    1nat
                } else {
                    0nat
                },
        decreases b@.side,
    {
        let ghost leaf = QuadtreeNode::Leaf(chain);
        let q = chain[0];
        proof {
            if b@.side == 1 {
                lemma_unit_square(b@, p.x as int, p.y as int, q.x as int, q.y as int);
            }
            lemma_quadrant(b@, p.x as int, p.y as int);
            lemma_quadrant(b@, q.x as int, q.y as int);
        }
        let i = b.quadrant(p.x, p.y);
        let j = b.quadrant(q.x, q.y);
        let r = if i != j {
            let lone = vec![p];
            assert(lone@ =~= seq![p]);
            QuadtreeNode::init_node().with_child(j, QuadtreeNode::Leaf(chain)).with_child(
                i,
                QuadtreeNode::Leaf(lone),
            )
        } else {
            let sub = b.child(i);
            let inner = QuadtreeNode::split(chain, sub, p);
            QuadtreeNode::init_node().with_child(i, inner)
        };
        proof {
            assert(r.child(0).wf(b@.child(0)));
            assert(r.child(1).wf(b@.child(1)));
            assert(r.child(2).wf(b@.child(2)));
            assert(r.child(3).wf(b@.child(3)));
            assert forall|x: int, y: int| #[trigger]
                r.count(x, y) == leaf.count(x, y) + if x == p.x && y == p.y {
                    1nat
                } else {
                    0nat
                } by {
                assert(r.count(x, y) == r.child(0).count(x, y) + r.child(1).count(x, y) + r.child(
                    2,
                ).count(x, y) + r.child(3).count(x, y));
            }
        }
        r
    }
}

} // verus!

verus! {

/// A node holds nothing at coordinates outside its square.
pub proof fn lemma_count_outside(n: QuadtreeNode, s: Square, x: int, y: int)
    requires
        n.wf(s),
        !s.contains(x, y),
    ensures
        n.count(x, y) == 0,
        n.leaves(x, y) == 0,
    decreases n,
{
    if let QuadtreeNode::Internal(a, b, c, d) = n {
        lemma_count_outside(*a, s.child(0), x, y);
        lemma_count_outside(*b, s.child(1), x, y);
        lemma_count_outside(*c, s.child(2), x, y);
        lemma_count_outside(*d, s.child(3), x, y);
    }
}

/// Coordinates that a node holds stand in its square, in exactly one leaf.
pub proof fn lemma_one_leaf(n: QuadtreeNode, s: Square, x: int, y: int)
    requires
        n.wf(s),
        s.valid(),
    ensures
        n.leaves(x, y) <= 1,
        n.count(x, y) > 0 <==> n.leaves(x, y) == 1,
        n.count(x, y) > 0 ==> s.contains(x, y),
    decreases n,
{
    if !s.contains(x, y) {
        lemma_count_outside(n, s, x, y);
    } else if let QuadtreeNode::Internal(a, b, c, d) = n {
        lemma_quadrant(s, x, y);
        let q = s.quadrant(x, y);
        assert(s.child(0).valid() && s.child(1).valid() && s.child(2).valid() && s.child(
            3,
        ).valid());
        if q == 0 {
            lemma_one_leaf(*a, s.child(0), x, y);
        } else {
            lemma_count_outside(*a, s.child(0), x, y);
        }
        if q == 1 {
            lemma_one_leaf(*b, s.child(1), x, y);
        } else {
            lemma_count_outside(*b, s.child(1), x, y);
        }
        if q == 2 {
            lemma_one_leaf(*c, s.child(2), x, y);
        } else {
            lemma_count_outside(*c, s.child(2), x, y);
        }
        if q == 3 {
            lemma_one_leaf(*d, s.child(3), x, y);
        } else {
            lemma_count_outside(*d, s.child(3), x, y);
        }
    }
}

/// A leaf or an empty node stays well formed in any larger square.
pub proof fn lemma_widen(n: QuadtreeNode, s: Square, t: Square)
    requires
        n.wf(s),
        !(n is Internal),
        s.within(t),
    ensures
        n.wf(t),
{
}

} // verus!
