use vstd::prelude::*;

use crate::geometry::{first_octant, lemma_far_box_far_point, lemma_first_octant, Aabb, Point};
use crate::select::{
    coords_of, ids_where, in_ball, in_box, lemma_coords_concat, lemma_ids_concat, lemma_ids_none,
};

verus! {

/// Depth at which nodes stop splitting: a leaf this deep keeps every point
/// that reaches it, past its capacity.  Without it, more than `capacity`
/// points at one place would split the tree forever.
pub const MAX_DEPTH: usize = 32;

/// One cell of the octree: a leaf holding points, or an inner node holding
/// exactly eight children, one per octant of its bounds.
pub struct Node {
    pub bounds: Aabb,
    pub points: Vec<Point>,
    pub children: Vec<Node>,
    pub capacity: usize,
    pub depth: usize,
}

/// The points of a sequence of subtrees, each in pre-order, one subtree
/// after the other.
pub open spec fn forest_points(f: Seq<Node>) -> Seq<Point>
    decreases f,
{
    if f.len() == 0 {
        seq![]
    } else {
        let last = f[f.len() - 1];
        forest_points(f.subrange(0, f.len() - 1)) + last.points@ + forest_points(last.children@)
    }
}

/// The corners of every node of a sequence of subtrees, in pre-order.
pub open spec fn forest_corners(f: Seq<Node>) -> Seq<i32>
    decreases f,
{
    if f.len() == 0 {
        seq![]
    } else {
        let last = f[f.len() - 1];
        forest_corners(f.subrange(0, f.len() - 1)) + last.bounds.corners() + forest_corners(
            last.children@,
        )
    }
}

/// Each point of a sequence of sibling subtrees lies in the first sibling,
/// in index order, whose bounds hold it.
pub open spec fn routed(cs: Seq<Node>) -> bool {
    forall|i: int, j: int, q: Point|
        #![trigger cs[i].tree_points().contains(q), cs[j]]
        0 <= j < i < cs.len() && cs[i].tree_points().contains(q) ==> !cs[j].bounds.holds(q)
}

/// Accepts the points whose octant of `b` is `i`.
pub open spec fn routes_to(b: Aabb, i: int) -> spec_fn(Point) -> bool {
    |q: Point| first_octant(b, q) == i
}

/// `c` is child `i` as splitting a leaf with bounds `b`, capacity `cap`,
/// depth `d` and points `ps` makes it: a leaf over octant `i`, one level
/// deeper, holding in their old order the points of `ps` whose octant is `i`.
pub open spec fn split_child(c: Node, b: Aabb, i: int, cap: usize, d: usize, ps: Seq<Point>) -> bool {
    &&& c.bounds == b.octant(i)
    &&& c.capacity == cap
    &&& c.depth == d + 1
    &&& c.is_leaf()
    &&& c.points@ == ps.filter(routes_to(b, i))
}

/// `n` is what inserting `p` (which `b` holds) leaves of a leaf with bounds
/// `b`, capacity `cap`, depth `d` and points `ps`.  With room, or at the
/// depth limit, the leaf appends `p`.  Otherwise it splits: every child but
/// the one for `p`'s octant is as the split makes it, and that one is what
/// inserting `p` leaves of it.
pub open spec fn leaf_after_insert(n: Node, b: Aabb, cap: usize, d: usize, ps: Seq<Point>, p: Point) -> bool
    decreases MAX_DEPTH - d,
{
    &&& n.bounds == b
    &&& n.capacity == cap
    &&& n.depth == d
    &&& if ps.len() < cap || d >= MAX_DEPTH {
        n.is_leaf() && n.points@ == ps.push(p)
    } else {
        let o = first_octant(b, p);
        &&& n.points@ == Seq::<Point>::empty()
        &&& n.children.len() == 8
        &&& forall|i: int|
            0 <= i < 8 && i != o ==> split_child(#[trigger] n.children@[i], b, i, cap, d, ps)
        &&& leaf_after_insert(
            n.children@[o],
            b.octant(o),
            cap,
            (d + 1) as usize,
            ps.filter(routes_to(b, o)),
            p,
        )
    }
}

/// `n` as a `u32`, held at `u32::MAX` when it does not fit.
pub open spec fn capped(n: nat) -> u32 {
    if n > u32::MAX {
        u32::MAX
    } else {
        n as u32
    }
}

impl Node {
    /// The points of the subtree in pre-order: the node's own, then each
    /// child's subtree in index order.
    pub open spec fn tree_points(self) -> Seq<Point> {
        self.points@ + forest_points(self.children@)
    }

    /// The corners of every node of the subtree, in pre-order.
    pub open spec fn tree_corners(self) -> Seq<i32> {
        self.bounds.corners() + forest_corners(self.children@)
    }

    pub open spec fn is_leaf(self) -> bool {
        self.children.len() == 0
    }

    /// `n` is what inserting `p` leaves of this subtree.  Bounds that miss
    /// `p` leave it as it is; a leaf changes as `leaf_after_insert` says; an
    /// inner node changes only in the child for `p`'s octant, and that child
    /// changes in the same way.
    pub open spec fn after_insert(self, n: Node, p: Point) -> bool
        decreases self,
    {
        if !self.bounds.holds(p) {
            n == self
        } else if self.is_leaf() {
            leaf_after_insert(n, self.bounds, self.capacity, self.depth, self.points@, p)
        } else {
            let o = first_octant(self.bounds, p);
            &&& n.bounds == self.bounds
            &&& n.capacity == self.capacity
            &&& n.depth == self.depth
            &&& n.points@ == self.points@
            &&& n.children.len() == self.children.len()
            &&& forall|i: int|
                0 <= i < self.children.len() && i != o ==> #[trigger] n.children@[i]
                    == self.children@[i]
            &&& 0 <= o < self.children.len()
            &&& self.children@[o].after_insert(n.children@[o], p)
        }
    }

    /// The shape of the subtree: every stored point lies in the node's
    /// bounds; a leaf above the depth limit holds at most `capacity` points;
    /// an inner node holds no points and eight children, child `i` covering
    /// octant `i`, one level deeper, with the same capacity.
    pub open spec fn wf(self) -> bool
        decreases self,
    {
        &&& 1 <= self.capacity
        &&& self.depth <= MAX_DEPTH
        &&& forall|k: int|
            0 <= k < self.tree_points().len() ==> self.bounds.holds(#[trigger] self.tree_points()[k])
        &&& if self.children.len() == 0 {
            self.depth < MAX_DEPTH ==> self.points.len() <= self.capacity
        } else {
            &&& self.children.len() == 8
            &&& self.points.len() == 0
            &&& self.depth < MAX_DEPTH
            &&& self.bounds.proper()
            &&& routed(self.children@)
            &&& forall|i: int|
                0 <= i < 8 ==> {
                    &&& (#[trigger] self.children@[i]).bounds == self.bounds.octant(i)
                    &&& self.children@[i].capacity == self.capacity
                    &&& self.children@[i].depth == self.depth + 1
                    &&& self.children@[i].wf()
                }
        }
    }

    /// An empty leaf.
    pub fn new(bounds: Aabb, capacity: usize, depth: usize) -> (n: Node)
        requires
            1 <= capacity,
            depth <= MAX_DEPTH,
        ensures
            n.wf(),
            n.bounds == bounds,
            n.capacity == capacity,
            n.depth == depth,
            n.is_leaf(),
            n.tree_points() == Seq::<Point>::empty(),
            n.tree_corners() == bounds.corners(),
    {
        let n = Node { bounds, points: Vec::new(), children: Vec::new(), capacity, depth };
        proof {
            assert(n.children@ =~= Seq::<Node>::empty());
            assert(n.tree_points() =~= Seq::<Point>::empty());
            assert(n.tree_corners() =~= bounds.corners());
        }
        n
    }

    /// The number of points in the subtree, held at `u32::MAX`.
    pub fn len(&self) -> (n: u32)
        requires
            self.wf(),
        ensures
            n == capped(self.tree_points().len()),
        decreases MAX_DEPTH - self.depth,
    {
        let mut n: u32 = if self.points.len() > u32::MAX as usize {
            u32::MAX
        } else {
            self.points.len() as u32
        };
        let mut i: usize = 0;
        while i < self.children.len()
            invariant
                self.wf(),
                i <= self.children.len(),
                n == capped(self.points@.len() + forest_points(self.children@.take(i as int)).len()),
            decreases self.children.len() - i,
        {
            let c = self.children[i].len();
            n = if n as u64 + c as u64 > u32::MAX as u64 {
                u32::MAX
            } else {
                n + c
            };
            proof {
                lemma_forest_take_succ(self.children@, i as int);
            }
            i += 1;
        }
        proof {
            assert(self.children@.take(self.children.len() as int) =~= self.children@);
        }
        n
    }

    /// Empties the subtree, leaving a leaf with the same bounds.
    pub fn clear(&mut self)
        requires
            old(self).wf(),
        ensures
            final(self).wf(),
            final(self).bounds == old(self).bounds,
            final(self).capacity == old(self).capacity,
            final(self).depth == old(self).depth,
            final(self).is_leaf(),
            final(self).tree_points() == Seq::<Point>::empty(),
            final(self).tree_corners() == old(self).bounds.corners(),
    {
        self.points.clear();
        self.children = Vec::new();
        proof {
            assert(self.children@ =~= Seq::<Node>::empty());
            assert(self.tree_points() =~= Seq::<Point>::empty());
            assert(self.tree_corners() =~= self.bounds.corners());
        }
    }

    /// Adds `p` to the subtree when the node's bounds hold it, and does
    /// nothing otherwise.  A full leaf above the depth limit first splits
    /// into its eight octants; `p` then goes to the first child that holds it.
    pub fn insert(&mut self, p: Point)
        requires
            old(self).wf(),
        ensures
            final(self).wf(),
            final(self).bounds == old(self).bounds,
            final(self).capacity == old(self).capacity,
            final(self).depth == old(self).depth,
            old(self).bounds.holds(p) ==> final(self).tree_points().to_multiset()
                == old(self).tree_points().to_multiset().insert(p),
            !old(self).bounds.holds(p) ==> *final(self) == *old(self),
            old(self).after_insert(*final(self), p),
        decreases MAX_DEPTH + 1 - self.depth, 2nat,
    {
        if !self.bounds.contains_point(p.x, p.y, p.z) {
            return ;
        }
        let ghost before = self.tree_points();
        if self.children.len() == 0 && (self.points.len() < self.capacity || self.depth
            >= MAX_DEPTH) {
            self.points.push(p);
            proof {
                assert(self.children@ =~= Seq::<Node>::empty());
                assert(self.tree_points() =~= before.push(p));
                before.to_multiset_ensures();
                lemma_holds_after_insert(before, self.tree_points(), self.bounds, p);
            }
            return ;
        }
        let ghost was_leaf = self.children.len() == 0;
        let ghost orig = *self;
        if self.children.len() == 0 {
            self.subdivide();
        }
        let ghost mid = self.tree_points();
        let ghost f = first_octant(self.bounds, p);
        proof {
            lemma_first_octant(self.bounds, p);
            assert(self.children@[f].bounds.holds(p));
            assert(self.children@[0].depth == self.depth + 1);
            assert(self.points@ =~= Seq::<Point>::empty());
            assert(mid =~= forest_points(self.children@));
        }
        let ghost kids = self.children@;
        let _ = Self::insert_into_children(&mut self.children, p);
        proof {
            let o = choose|o: int|
                {
                    &&& 0 <= o < 8
                    &&& (#[trigger] kids[o]).bounds.holds(p)
                    &&& forall|j: int| 0 <= j < o ==> !(#[trigger] kids[j]).bounds.holds(p)
                    &&& self.children@ == kids.update(o, self.children@[o])
                    &&& self.children@[o].tree_points().to_multiset()
                        == kids[o].tree_points().to_multiset().insert(p)
                    &&& kids[o].after_insert(self.children@[o], p)
                };
            assert(kids[f].bounds.holds(p));
            assert(o == f);
            lemma_routed_after(kids, self.children@, o, p);
            assert(self.tree_points() =~= forest_points(self.children@));
            lemma_holds_after_insert(before, self.tree_points(), self.bounds, p);
            assert forall|i: int| 0 <= i < 8 && i != o implies #[trigger] self.children@[i]
                == kids[i] by {}
            if was_leaf {
                assert forall|i: int| 0 <= i < 8 && i != o implies split_child(
                    #[trigger] self.children@[i],
                    orig.bounds,
                    i,
                    orig.capacity,
                    orig.depth,
                    orig.points@,
                ) by {
                    assert(self.children@[i] == kids[i]);
                }
                assert(split_child(kids[o], orig.bounds, o, orig.capacity, orig.depth, orig.points@));
            }
        }
    }

    /// Turns a leaf into an inner node: makes the eight octant children and
    /// moves the leaf's points into them.  An inner node stays as it is.
    pub fn subdivide(&mut self)
        requires
            old(self).wf(),
            old(self).depth < MAX_DEPTH,
            old(self).bounds.proper(),
        ensures
            final(self).wf(),
            final(self).bounds == old(self).bounds,
            final(self).capacity == old(self).capacity,
            final(self).depth == old(self).depth,
            !final(self).is_leaf(),
            final(self).tree_points().to_multiset() == old(self).tree_points().to_multiset(),
            !old(self).is_leaf() ==> *final(self) == *old(self),
            old(self).is_leaf() ==> final(self).points@ == Seq::<Point>::empty(),
            old(self).is_leaf() ==> forall|i: int|
                0 <= i < 8 ==> split_child(
                    #[trigger] final(self).children@[i],
                    old(self).bounds,
                    i,
                    old(self).capacity,
                    old(self).depth,
                    old(self).points@,
                ),
        decreases MAX_DEPTH + 1 - self.depth, 1nat,
    {
        if self.children.len() != 0 {
            return ;
        }
        let ghost before = self.tree_points();
        proof {
            assert(before =~= self.points@);
        }
        let mut children: Vec<Node> = Vec::new();
        let mut i: usize = 0;
        while i < 8
            invariant
                i <= 8,
                children.len() == i,
                self.depth < MAX_DEPTH,
                1 <= self.capacity,
                forall|j: int|
                    0 <= j < i ==> {
                        &&& (#[trigger] children@[j]).bounds == self.bounds.octant(j)
                        &&& children@[j].capacity == self.capacity
                        &&& children@[j].depth == self.depth + 1
                        &&& children@[j].wf()
                        &&& children@[j].tree_points() == Seq::<Point>::empty()
                        &&& children@[j].is_leaf()
                    },
                forest_points(children@) == Seq::<Point>::empty(),
            decreases 8 - i,
        {
            let c = Node::new(self.bounds.child_bounds(i), self.capacity, self.depth + 1);
            let ghost prev = children@;
            children.push(c);
            proof {
                assert(children@.take(i as int) =~= prev);
                assert(children@.take(i + 1) =~= children@);
                lemma_forest_take_succ(children@, i as int);
                assert(forest_points(children@) =~= Seq::<Point>::empty());
            }
            i += 1;
        }
        let mut pending: Vec<Point> = Vec::new();
        std::mem::swap(&mut self.points, &mut pending);
        proof {
            assert forall|a: int, b: int, q: Point|
                0 <= b < a < children@.len() && #[trigger] children@[a].tree_points().contains(q)
                    implies !(#[trigger] children@[b]).bounds.holds(q) by {
                assert(children@[a].tree_points() == Seq::<Point>::empty());
            }
            assert(pending@ == before);
            assert(pending@.take(0) =~= Seq::<Point>::empty());
            assert forall|j: int| 0 <= j < 8 implies {
                &&& (#[trigger] children@[j]).is_leaf()
                &&& children@[j].points@ == pending@.take(0).filter(routes_to(self.bounds, j))
            } by {
                pending@.take(0).lemma_filter_len(routes_to(self.bounds, j));
                assert(children@[j].tree_points().len() == 0);
                assert(children@[j].points@ =~= pending@.take(0).filter(routes_to(self.bounds, j)));
            }
        }
        let mut k: usize = 0;
        while k < pending.len()
            invariant
                k <= pending.len(),
                pending@ == before,
                children.len() == 8,
                self.depth < MAX_DEPTH,
                self.depth == old(self).depth,
                self.bounds == old(self).bounds,
                self.capacity == old(self).capacity,
                forall|j: int| 0 <= j < before.len() ==> self.bounds.holds(#[trigger] before[j]),
                forall|j: int|
                    0 <= j < 8 ==> {
                        &&& (#[trigger] children@[j]).bounds == self.bounds.octant(j)
                        &&& children@[j].capacity == self.capacity
                        &&& children@[j].depth == self.depth + 1
                        &&& children@[j].wf()
                    },
                forest_points(children@).to_multiset() == pending@.take(k as int).to_multiset(),
                routed(children@),
                pending.len() <= self.capacity,
                forall|j: int|
                    0 <= j < 8 ==> {
                        &&& (#[trigger] children@[j]).is_leaf()
                        &&& children@[j].points@ == pending@.take(k as int).filter(
                            routes_to(self.bounds, j),
                        )
                    },
            decreases pending.len() - k,
        {
            let p = pending[k];
            let ghost f = first_octant(self.bounds, p);
            proof {
                assert(self.bounds.holds(before[k as int]));
                lemma_first_octant(self.bounds, p);
                assert(children@[f].bounds.holds(p));
                assert(children@[0].depth == self.depth + 1);
                assert(pending@.take(k + 1) =~= pending@.take(k as int).push(p));
                pending@.take(k as int).to_multiset_ensures();
            }
            let ghost kids = children@;
            let _ = Self::insert_into_children(&mut children, p);
            proof {
                let o = choose|o: int|
                    {
                        &&& 0 <= o < 8
                        &&& (#[trigger] kids[o]).bounds.holds(p)
                        &&& forall|j: int| 0 <= j < o ==> !(#[trigger] kids[j]).bounds.holds(p)
                        &&& children@ == kids.update(o, children@[o])
                        &&& children@[o].tree_points().to_multiset()
                            == kids[o].tree_points().to_multiset().insert(p)
                        &&& kids[o].after_insert(children@[o], p)
                    };
                assert(kids[f].bounds.holds(p));
                assert(o == f);
                lemma_routed_after(kids, children@, o, p);
                let t = pending@.take(k as int);
                assert(pending@.take(k + 1) == t.push(p));
                assert forall|j: int| 0 <= j < 8 implies {
                    &&& (#[trigger] children@[j]).is_leaf()
                    &&& children@[j].points@ == pending@.take(k + 1).filter(
                        routes_to(self.bounds, j),
                    )
                } by {
                    t.lemma_filter_push(p, routes_to(self.bounds, j));
                    if j != o {
                        assert(children@[j] == kids[j]);
                    } else {
                        t.lemma_filter_len(routes_to(self.bounds, j));
                        assert(kids[o].points.len() < kids[o].capacity);
                    }
                }
            }
            k += 1;
        }
        self.children = children;
        proof {
            assert(pending@.take(pending.len() as int) =~= before);
            assert(before == old(self).points@);
            assert(self.points@ =~= Seq::<Point>::empty());
            assert(self.tree_points() =~= forest_points(self.children@));
            lemma_holds_after_same(before, self.tree_points(), self.bounds);
        }
    }

    /// Hands `p` to the first of eight children whose bounds hold it, and
    /// says whether there was one.
    pub fn insert_into_children(children: &mut Vec<Node>, p: Point) -> (found: bool)
        requires
            old(children).len() == 8,
            forall|i: int|
                0 <= i < 8 ==> {
                    &&& (#[trigger] old(children)@[i]).wf()
                    &&& old(children)@[i].depth == old(children)@[0].depth
                },
        ensures
            final(children).len() == 8,
            forall|i: int|
                0 <= i < 8 ==> {
                    &&& (#[trigger] final(children)@[i]).wf()
                    &&& final(children)@[i].bounds == old(children)@[i].bounds
                    &&& final(children)@[i].capacity == old(children)@[i].capacity
                    &&& final(children)@[i].depth == old(children)@[i].depth
                },
            found == exists|i: int| 0 <= i < 8 && (#[trigger] old(children)@[i]).bounds.holds(p),
            found ==> forest_points(final(children)@).to_multiset() == forest_points(
                old(children)@,
            ).to_multiset().insert(p),
            found ==> exists|o: int|
                {
                    &&& 0 <= o < 8
                    &&& (#[trigger] old(children)@[o]).bounds.holds(p)
                    &&& forall|j: int| 0 <= j < o ==> !(#[trigger] old(children)@[j]).bounds.holds(p)
                    &&& final(children)@ == old(children)@.update(o, final(children)@[o])
                    &&& final(children)@[o].tree_points().to_multiset() == old(
                        children,
                    )@[o].tree_points().to_multiset().insert(p)
                    &&& old(children)@[o].after_insert(final(children)@[o], p)
                },
            !found ==> final(children)@ == old(children)@,
        decreases MAX_DEPTH + 2 - children@[0].depth, 0nat,
    {
        let mut i: usize = 0;
        while i < 8
            invariant
                i <= 8,
                children@ == old(children)@,
                children.len() == 8,
                forall|j: int|
                    0 <= j < 8 ==> {
                        &&& (#[trigger] old(children)@[j]).wf()
                        &&& old(children)@[j].depth == old(children)@[0].depth
                    },
                forall|j: int| 0 <= j < i ==> !(#[trigger] old(children)@[j]).bounds.holds(p),
            decreases 8 - i,
        {
            if children[i].bounds.contains_point(p.x, p.y, p.z) {
                proof {
                    assert(old(children)@[i as int].wf());
                    assert(old(children)@[i as int].depth == old(children)@[0].depth);
                }
                children[i].insert(p);
                proof {
                    assert(children@ =~= old(children)@.update(i as int, children@[i as int]));
                    lemma_forest_update(old(children)@, i as int, children@[i as int], p);
                    assert(old(children)@[i as int].bounds.holds(p));
                    assert forall|j: int| 0 <= j < 8 implies {
                        &&& (#[trigger] children@[j]).wf()
                        &&& children@[j].bounds == old(children)@[j].bounds
                        &&& children@[j].capacity == old(children)@[j].capacity
                        &&& children@[j].depth == old(children)@[j].depth
                    } by {
                        if j != i {
                            assert(children@[j] == old(children)@[j]);
                        }
                    }
                }
                return true;
            }
            i += 1;
        }
        false
    }

    /// Appends the identifiers of the subtree's points that `range` holds,
    /// in pre-order, skipping every subtree whose bounds miss `range`.
    pub fn query_aabb(&self, range: &Aabb, out: &mut Vec<u32>)
        requires
            self.wf(),
        ensures
            final(out)@ == old(out)@ + ids_where(self.tree_points(), in_box(*range)),
        decreases MAX_DEPTH - self.depth,
    {
        let ghost keep = in_box(*range);
        if !self.bounds.intersects_aabb(range) {
            proof {
                let s = self.tree_points();
                assert forall|k: int| 0 <= k < s.len() implies !keep(#[trigger] s[k]) by {
                    assert(self.bounds.holds(s[k]));
                }
                lemma_ids_none(s, keep);
                assert(old(out)@ + Seq::<u32>::empty() =~= old(out)@);
            }
            return ;
        }
        let mut k: usize = 0;
        while k < self.points.len()
            invariant
                k <= self.points.len(),
                out@ == old(out)@ + ids_where(self.points@.take(k as int), keep),
                keep == in_box(*range),
            decreases self.points.len() - k,
        {
            let p = self.points[k];
            proof {
                assert(self.points@.take(k + 1).drop_last() =~= self.points@.take(k as int));
                assert(self.points@.take(k + 1)[k as int] == p);
            }
            if range.contains_point(p.x, p.y, p.z) {
                out.push(p.id);
                proof {
                    assert(out@ =~= old(out)@ + ids_where(self.points@.take(k + 1), keep));
                }
            } else {
                proof {
                    assert(out@ =~= old(out)@ + ids_where(self.points@.take(k + 1), keep));
                }
            }
            k += 1;
        }
        proof {
            assert(self.points@.take(self.points.len() as int) =~= self.points@);
        }
        let mut i: usize = 0;
        while i < self.children.len()
            invariant
                self.wf(),
                i <= self.children.len(),
                keep == in_box(*range),
                out@ == old(out)@ + ids_where(self.points@, keep) + ids_where(
                    forest_points(self.children@.take(i as int)),
                    keep,
                ),
            decreases self.children.len() - i,
        {
            self.children[i].query_aabb(range, out);
            proof {
                lemma_forest_take_succ(self.children@, i as int);
                lemma_ids_concat(
                    forest_points(self.children@.take(i as int)),
                    self.children@[i as int].tree_points(),
                    keep,
                );
            }
            i += 1;
        }
        proof {
            assert(self.children@.take(self.children.len() as int) =~= self.children@);
            lemma_ids_concat(self.points@, forest_points(self.children@), keep);
        }
    }

    /// Appends the identifiers of the subtree's points that lie in the
    /// closed ball of radius `|r|` around `(cx, cy, cz)`, in pre-order,
    /// skipping every subtree whose bounds miss the ball.
    pub fn query_sphere(&self, cx: i32, cy: i32, cz: i32, r: i32, out: &mut Vec<u32>)
        requires
            self.wf(),
        ensures
            final(out)@ == old(out)@ + ids_where(self.tree_points(), in_ball(cx, cy, cz, r)),
        decreases MAX_DEPTH - self.depth,
    {
        let ghost keep = in_ball(cx, cy, cz, r);
        if !self.bounds.intersects_sphere(cx, cy, cz, r) {
            proof {
                let s = self.tree_points();
                assert forall|k: int| 0 <= k < s.len() implies !keep(#[trigger] s[k]) by {
                    lemma_far_box_far_point(self.bounds, s[k], cx, cy, cz, r);
                }
                lemma_ids_none(s, keep);
                assert(old(out)@ + Seq::<u32>::empty() =~= old(out)@);
            }
            return ;
        }
        let r2 = crate::geometry::square(r as i64);
        let mut k: usize = 0;
        while k < self.points.len()
            invariant
                k <= self.points.len(),
                out@ == old(out)@ + ids_where(self.points@.take(k as int), keep),
                keep == in_ball(cx, cy, cz, r),
                r2 == crate::geometry::sq(r as int),
            decreases self.points.len() - k,
        {
            let p = self.points[k];
            proof {
                assert(self.points@.take(k + 1).drop_last() =~= self.points@.take(k as int));
                assert(self.points@.take(k + 1)[k as int] == p);
            }
            if crate::geometry::squared_distance(p.x, p.y, p.z, cx, cy, cz) <= r2 {
                out.push(p.id);
                proof {
                    assert(out@ =~= old(out)@ + ids_where(self.points@.take(k + 1), keep));
                }
            } else {
                proof {
                    assert(out@ =~= old(out)@ + ids_where(self.points@.take(k + 1), keep));
                }
            }
            k += 1;
        }
        proof {
            assert(self.points@.take(self.points.len() as int) =~= self.points@);
        }
        let mut i: usize = 0;
        while i < self.children.len()
            invariant
                self.wf(),
                i <= self.children.len(),
                keep == in_ball(cx, cy, cz, r),
                out@ == old(out)@ + ids_where(self.points@, keep) + ids_where(
                    forest_points(self.children@.take(i as int)),
                    keep,
                ),
            decreases self.children.len() - i,
        {
            self.children[i].query_sphere(cx, cy, cz, r, out);
            proof {
                lemma_forest_take_succ(self.children@, i as int);
                lemma_ids_concat(
                    forest_points(self.children@.take(i as int)),
                    self.children@[i as int].tree_points(),
                    keep,
                );
            }
            i += 1;
        }
        proof {
            assert(self.children@.take(self.children.len() as int) =~= self.children@);
            lemma_ids_concat(self.points@, forest_points(self.children@), keep);
        }
    }

    /// Appends the corners of every node of the subtree, six per node, in
    /// pre-order.
    pub fn gather_bounds(&self, out: &mut Vec<i32>)
        requires
            self.wf(),
        ensures
            final(out)@ == old(out)@ + self.tree_corners(),
        decreases MAX_DEPTH - self.depth,
    {
        out.push(self.bounds.min_x);
        out.push(self.bounds.min_y);
        out.push(self.bounds.min_z);
        out.push(self.bounds.max_x);
        out.push(self.bounds.max_y);
        out.push(self.bounds.max_z);
        proof {
            assert(out@ =~= old(out)@ + self.bounds.corners());
            assert(self.children@.take(0) =~= Seq::<Node>::empty());
        }
        let mut i: usize = 0;
        while i < self.children.len()
            invariant
                self.wf(),
                i <= self.children.len(),
                out@ == old(out)@ + self.bounds.corners() + forest_corners(
                    self.children@.take(i as int),
                ),
            decreases self.children.len() - i,
        {
            self.children[i].gather_bounds(out);
            proof {
                lemma_forest_take_succ(self.children@, i as int);
            }
            i += 1;
        }
        proof {
            assert(self.children@.take(self.children.len() as int) =~= self.children@);
        }
    }

    /// Appends the coordinates of the subtree's points, three per point, in
    /// pre-order.
    pub fn gather_coords(&self, out: &mut Vec<i32>)
        requires
            self.wf(),
        ensures
            final(out)@ == old(out)@ + coords_of(self.tree_points()),
        decreases MAX_DEPTH - self.depth,
    {
        let mut k: usize = 0;
        while k < self.points.len()
            invariant
                k <= self.points.len(),
                out@ == old(out)@ + coords_of(self.points@.take(k as int)),
            decreases self.points.len() - k,
        {
            let p = self.points[k];
            out.push(p.x);
            out.push(p.y);
            out.push(p.z);
            proof {
                assert(self.points@.take(k + 1).drop_last() =~= self.points@.take(k as int));
                assert(self.points@.take(k + 1)[k as int] == p);
                assert(out@ =~= old(out)@ + coords_of(self.points@.take(k + 1)));
            }
            k += 1;
        }
        proof {
            assert(self.points@.take(self.points.len() as int) =~= self.points@);
        }
        let mut i: usize = 0;
        while i < self.children.len()
            invariant
                self.wf(),
                i <= self.children.len(),
                out@ == old(out)@ + coords_of(self.points@) + coords_of(
                    forest_points(self.children@.take(i as int)),
                ),
            decreases self.children.len() - i,
        {
            self.children[i].gather_coords(out);
            proof {
                lemma_forest_take_succ(self.children@, i as int);
                lemma_coords_concat(
                    forest_points(self.children@.take(i as int)),
                    self.children@[i as int].tree_points(),
                );
            }
            i += 1;
        }
        proof {
            assert(self.children@.take(self.children.len() as int) =~= self.children@);
            lemma_coords_concat(self.points@, forest_points(self.children@));
        }
    }
}

/// The dump of an inner node whose children are all leaves: its own corners,
/// then the corners of its octants in index order.
pub proof fn law_split_dump_order(n: Node)
    requires
        n.wf(),
        n.children.len() == 8,
        forall|i: int| 0 <= i < 8 ==> (#[trigger] n.children@[i]).is_leaf(),
    ensures
        n.tree_corners() == n.bounds.corners() + n.bounds.octant(0).corners() + n.bounds.octant(
            1,
        ).corners() + n.bounds.octant(2).corners() + n.bounds.octant(3).corners()
            + n.bounds.octant(4).corners() + n.bounds.octant(5).corners() + n.bounds.octant(
            6,
        ).corners() + n.bounds.octant(7).corners(),
{
    let cs = n.children@;
    let b = n.bounds;
    assert(cs.take(0) =~= Seq::<Node>::empty());
    assert forall|i: int| 0 <= i < 8 implies (#[trigger] cs[i]).tree_corners() == b.octant(
        i,
    ).corners() by {
        assert(cs[i].children@ =~= Seq::<Node>::empty());
        assert(cs[i].tree_corners() =~= b.octant(i).corners());
    }
    lemma_forest_take_succ(cs, 0);
    lemma_forest_take_succ(cs, 1);
    lemma_forest_take_succ(cs, 2);
    lemma_forest_take_succ(cs, 3);
    lemma_forest_take_succ(cs, 4);
    lemma_forest_take_succ(cs, 5);
    lemma_forest_take_succ(cs, 6);
    lemma_forest_take_succ(cs, 7);
    assert(cs.take(8) =~= cs);
    assert(forest_corners(cs.take(0)) =~= Seq::<i32>::empty());
    assert(n.tree_corners() =~= b.corners() + b.octant(0).corners() + b.octant(1).corners()
        + b.octant(2).corners() + b.octant(3).corners() + b.octant(4).corners() + b.octant(
        5,
    ).corners() + b.octant(6).corners() + b.octant(7).corners());
}

/// The dump of eight sibling subtrees is as long as their dumps together.
pub proof fn lemma_forest_corners_len8(cs: Seq<Node>)
    requires
        cs.len() == 8,
    ensures
        forest_corners(cs).len() == cs[0].tree_corners().len() + cs[1].tree_corners().len()
            + cs[2].tree_corners().len() + cs[3].tree_corners().len() + cs[4].tree_corners().len()
            + cs[5].tree_corners().len() + cs[6].tree_corners().len() + cs[7].tree_corners().len(),
{
    assert(cs.take(0) =~= Seq::<Node>::empty());
    assert(forest_corners(cs.take(0)) =~= Seq::<i32>::empty());
    lemma_forest_take_succ(cs, 0);
    lemma_forest_take_succ(cs, 1);
    lemma_forest_take_succ(cs, 2);
    lemma_forest_take_succ(cs, 3);
    lemma_forest_take_succ(cs, 4);
    lemma_forest_take_succ(cs, 5);
    lemma_forest_take_succ(cs, 6);
    lemma_forest_take_succ(cs, 7);
    assert(cs.take(8) =~= cs);
}

/// What inserting into a leaf leaves dumps six values per node: its own
/// six, then forty-eight for each split.
pub proof fn lemma_leaf_insert_dump(n: Node, b: Aabb, cap: usize, d: usize, ps: Seq<Point>, p: Point)
    requires
        leaf_after_insert(n, b, cap, d, ps, p),
    ensures
        n.tree_corners().len() >= 6,
        (n.tree_corners().len() - 6) % 48 == 0,
    decreases MAX_DEPTH - d,
{
    if ps.len() < cap || d >= MAX_DEPTH {
        assert(n.children@ =~= Seq::<Node>::empty());
    } else {
        let o = first_octant(b, p);
        lemma_leaf_insert_dump(
            n.children@[o],
            b.octant(o),
            cap,
            (d + 1) as usize,
            ps.filter(routes_to(b, o)),
            p,
        );
        assert forall|i: int| 0 <= i < 8 && i != o implies (#[trigger] n.children@[i]).tree_corners().len()
            == 6 by {
            assert(split_child(n.children@[i], b, i, cap, d, ps));
            assert(n.children@[i].children@ =~= Seq::<Node>::empty());
        }
        lemma_forest_corners_len8(n.children@);
        let c = n.children@[o].tree_corners().len() as int;
        assert(n.tree_corners().len() == 6 + 42 + c);
    }
}

/// Inserting keeps every node: the dump keeps its first six values, the
/// node's own bounds, and grows by forty-eight values for each split.
pub proof fn law_insert_grows_dump_by_splits(n: Node, m: Node, p: Point)
    requires
        n.wf(),
        n.after_insert(m, p),
    ensures
        m.tree_corners().subrange(0, 6) == n.bounds.corners(),
        m.tree_corners().len() >= n.tree_corners().len(),
        (m.tree_corners().len() - n.tree_corners().len()) % 48 == 0,
    decreases n,
{
    if !n.bounds.holds(p) {
    } else if n.is_leaf() {
        assert(n.children@ =~= Seq::<Node>::empty());
        lemma_leaf_insert_dump(m, n.bounds, n.capacity, n.depth, n.points@, p);
    } else {
        let o = first_octant(n.bounds, p);
        law_insert_grows_dump_by_splits(n.children@[o], m.children@[o], p);
        assert forall|i: int| 0 <= i < 8 && i != o implies (#[trigger] m.children@[i]).tree_corners().len()
            == n.children@[i].tree_corners().len() by {
            assert(m.children@[i] == n.children@[i]);
        }
        lemma_forest_corners_len8(n.children@);
        lemma_forest_corners_len8(m.children@);
    }
    assert(m.tree_corners().subrange(0, 6) =~= m.bounds.corners());
}

/// Adding one more subtree to a prefix adds its points and corners at the end.
pub proof fn lemma_forest_take_succ(f: Seq<Node>, i: int)
    requires
        0 <= i < f.len(),
    ensures
        forest_points(f.take(i + 1)) == forest_points(f.take(i)) + f[i].tree_points(),
        forest_corners(f.take(i + 1)) == forest_corners(f.take(i)) + f[i].tree_corners(),
{
    let t = f.take(i + 1);
    assert(t.subrange(0, t.len() - 1) =~= f.take(i));
    assert(t[t.len() - 1] == f[i]);
    assert(forest_points(f.take(i)) + f[i].points@ + forest_points(f[i].children@)
        =~= forest_points(f.take(i)) + f[i].tree_points());
    assert(forest_corners(f.take(i)) + f[i].bounds.corners() + forest_corners(f[i].children@)
        =~= forest_corners(f.take(i)) + f[i].tree_corners());
}

/// Adding `p` to the first sibling whose bounds hold it keeps the siblings
/// routed.
pub proof fn lemma_routed_after(cs1: Seq<Node>, cs2: Seq<Node>, o: int, p: Point)
    requires
        routed(cs1),
        0 <= o < cs1.len(),
        cs2 == cs1.update(o, cs2[o]),
        cs2[o].bounds == cs1[o].bounds,
        forall|j: int| 0 <= j < o ==> !(#[trigger] cs1[j]).bounds.holds(p),
        cs2[o].tree_points().to_multiset() == cs1[o].tree_points().to_multiset().insert(p),
    ensures
        routed(cs2),
{
    broadcast use vstd::seq_lib::group_to_multiset_ensures;

    assert forall|i: int, j: int, q: Point|
        0 <= j < i < cs2.len() && #[trigger] cs2[i].tree_points().contains(q) implies !(
        #[trigger] cs2[j]).bounds.holds(q) by {
        assert(cs2[j].bounds == cs1[j].bounds);
        if i == o {
            assert(cs2[o].tree_points().to_multiset().count(q) > 0);
            if q != p {
                assert(cs1[o].tree_points().to_multiset().count(q) > 0);
                assert(cs1[o].tree_points().contains(q));
            }
        } else {
            assert(cs2[i] == cs1[i]);
        }
    }
}

pub proof fn lemma_forest_concat(a: Seq<Node>, b: Seq<Node>)
    ensures
        forest_points(a + b) == forest_points(a) + forest_points(b),
    decreases b.len(),
{
    if b.len() == 0 {
        assert(a + b =~= a);
        assert(forest_points(a) + forest_points(b) =~= forest_points(a));
    } else {
        let c = a + b;
        let bl = b.subrange(0, b.len() - 1);
        lemma_forest_concat(a, bl);
        assert(c.subrange(0, c.len() - 1) =~= a + bl);
        assert(c[c.len() - 1] == b[b.len() - 1]);
        let last = b[b.len() - 1];
        assert(forest_points(a) + forest_points(bl) + last.points@ + forest_points(last.children@)
            =~= forest_points(a) + (forest_points(bl) + last.points@ + forest_points(
            last.children@,
        )));
    }
}

pub proof fn lemma_forest_single(c: Node)
    ensures
        forest_points(seq![c]) == c.tree_points(),
{
    let f = seq![c];
    assert(f.subrange(0, 0) =~= Seq::<Node>::empty());
    assert(forest_points(Seq::<Node>::empty()) + c.points@ + forest_points(c.children@)
        =~= c.tree_points());
}

/// Replacing one subtree by one that holds a point more adds that point to
/// the whole sequence.
pub proof fn lemma_forest_update(f: Seq<Node>, i: int, c: Node, p: Point)
    requires
        0 <= i < f.len(),
        c.tree_points().to_multiset() == f[i].tree_points().to_multiset().insert(p),
    ensures
        forest_points(f.update(i, c)).to_multiset() == forest_points(f).to_multiset().insert(p),
{
    broadcast use vstd::seq_lib::lemma_multiset_commutative;

    let g = f.update(i, c);
    let a = f.take(i);
    let b = f.skip(i + 1);
    assert(f =~= a + seq![f[i]] + b);
    assert(g =~= a + seq![c] + b);
    lemma_forest_concat(a + seq![f[i]], b);
    lemma_forest_concat(a, seq![f[i]]);
    lemma_forest_concat(a + seq![c], b);
    lemma_forest_concat(a, seq![c]);
    lemma_forest_single(f[i]);
    lemma_forest_single(c);
    let fa = forest_points(a);
    let fb = forest_points(b);
    assert(forest_points(f) == fa + f[i].tree_points() + fb);
    assert(forest_points(g) == fa + c.tree_points() + fb);
    assert(forest_points(g).to_multiset() =~= forest_points(f).to_multiset().insert(p));
}

/// When `s2` holds the points of `s1` and `p`, and a box holds all of those,
/// it holds every point of `s2`.
pub proof fn lemma_holds_after_insert(s1: Seq<Point>, s2: Seq<Point>, b: Aabb, p: Point)
    requires
        s2.to_multiset() == s1.to_multiset().insert(p),
        b.holds(p),
        forall|k: int| 0 <= k < s1.len() ==> b.holds(#[trigger] s1[k]),
    ensures
        forall|k: int| 0 <= k < s2.len() ==> b.holds(#[trigger] s2[k]),
{
    broadcast use vstd::seq_lib::group_to_multiset_ensures;

    assert forall|k: int| 0 <= k < s2.len() implies b.holds(#[trigger] s2[k]) by {
        let q = s2[k];
        assert(s2.contains(q));
        if q != p {
            assert(s2.to_multiset().count(q) > 0);
            assert(s1.to_multiset().count(q) > 0);
            assert(s1.contains(q));
        }
    }
}

/// When `s2` holds the points of `s1`, a box that holds every point of `s1`
/// holds every point of `s2`.
pub proof fn lemma_holds_after_same(s1: Seq<Point>, s2: Seq<Point>, b: Aabb)
    requires
        s2.to_multiset() == s1.to_multiset(),
        forall|k: int| 0 <= k < s1.len() ==> b.holds(#[trigger] s1[k]),
    ensures
        forall|k: int| 0 <= k < s2.len() ==> b.holds(#[trigger] s2[k]),
{
    broadcast use vstd::seq_lib::group_to_multiset_ensures;

    assert forall|k: int| 0 <= k < s2.len() implies b.holds(#[trigger] s2[k]) by {
        assert(s2.contains(s2[k]));
        assert(s2.to_multiset().count(s2[k]) > 0);
        assert(s1.contains(s2[k]));
    }
}

} // verus!
