use vstd::prelude::*;

use crate::geometry::{lemma_zero_radius, Aabb, Point};
use crate::node::{capped, law_insert_grows_dump_by_splits, Node};
use crate::select::{at_coords, coords_of, ids_where, in_ball, in_box, lemma_ids_agree, lemma_ids_member};

verus! {

/// A spatial index over lattice points inside fixed universe bounds.
/// Points outside the universe are dropped on insertion.
pub struct Octree {
    root: Node,
}

impl Octree {
    /// The root of the tree.
    pub closed spec fn tree(self) -> Node {
        self.root
    }

    /// The tree is well formed and its root sits at depth zero.
    pub open spec fn wf(self) -> bool {
        self.tree().wf() && self.tree().depth == 0
    }

    /// The universe bounds, fixed at construction.
    pub open spec fn bounds(self) -> Aabb {
        self.tree().bounds
    }

    /// The capacity of every leaf above the depth limit.
    pub open spec fn capacity(self) -> nat {
        self.tree().capacity as nat
    }

    /// The stored points in pre-order: a node's own points, then each
    /// child's, children in index order.
    pub open spec fn stored(self) -> Seq<Point> {
        self.tree().tree_points()
    }

    /// The corners of every node in pre-order, six per node.
    pub open spec fn node_corners(self) -> Seq<i32> {
        self.tree().tree_corners()
    }

    /// `after` is what inserting `p` into `self` leaves: the tree changes as
    /// `Node::after_insert` says, so `p` is stored when the universe holds it,
    /// and nothing changes otherwise.
    pub open spec fn after_insert(self, after: Octree, p: Point) -> bool {
        &&& after.wf()
        &&& self.tree().after_insert(after.tree(), p)
        &&& after.bounds() == self.bounds()
        &&& after.capacity() == self.capacity()
        &&& if self.bounds().holds(p) {
            after.stored().to_multiset() == self.stored().to_multiset().insert(p)
        } else {
            after.stored() == self.stored() && after.node_corners() == self.node_corners()
        }
    }

    /// `after` is `self` emptied: one empty leaf with the same universe.
    pub open spec fn after_clear(self, after: Octree) -> bool {
        &&& after.wf()
        &&& after.tree().is_leaf()
        &&& after.bounds() == self.bounds()
        &&& after.capacity() == self.capacity()
        &&& after.stored() == Seq::<Point>::empty()
        &&& after.node_corners() == self.bounds().corners()
    }

    /// An empty index over the box from `(minx, miny, minz)` to
    /// `(maxx, maxy, maxz)`; a capacity of zero counts as one.
    pub fn new(minx: i32, miny: i32, minz: i32, maxx: i32, maxy: i32, maxz: i32, capacity: u32) -> (t:
        Octree)
        ensures
            t.wf(),
            t.bounds() == (Aabb {
                min_x: minx,
                min_y: miny,
                min_z: minz,
                max_x: maxx,
                max_y: maxy,
                max_z: maxz,
            }),
            t.capacity() == if capacity == 0 {
                1
            } else {
                capacity as nat
            },
            t.tree().is_leaf(),
            t.stored() == Seq::<Point>::empty(),
            t.node_corners() == t.bounds().corners(),
    {
        let capacity: u32 = if capacity < 1 {
            1
        } else {
            capacity
        };
        let bounds = Aabb {
            min_x: minx,
            min_y: miny,
            min_z: minz,
            max_x: maxx,
            max_y: maxy,
            max_z: maxz,
        };
        Octree { root: Node::new(bounds, capacity as usize, 0) }
    }

    /// Stores the point `(x, y, z)` with identifier `id` when the universe
    /// holds it; drops it silently otherwise.
    pub fn insert(&mut self, x: i32, y: i32, z: i32, id: u32)
        requires
            old(self).wf(),
        ensures
            old(self).after_insert(*final(self), Point { x, y, z, id }),
    {
        let p = Point { x, y, z, id };
        self.root.insert(p);
    }

    /// The identifiers of the stored points that the box from
    /// `(minx, miny, minz)` to `(maxx, maxy, maxz)` holds, in pre-order.
    pub fn query_aabb(&self, minx: i32, miny: i32, minz: i32, maxx: i32, maxy: i32, maxz: i32) -> (r:
        Vec<u32>)
        requires
            self.wf(),
        ensures
            r@ == ids_where(
                self.stored(),
                in_box(
                    Aabb {
                        min_x: minx,
                        min_y: miny,
                        min_z: minz,
                        max_x: maxx,
                        max_y: maxy,
                        max_z: maxz,
                    },
                ),
            ),
    {
        let range = Aabb {
            min_x: minx,
            min_y: miny,
            min_z: minz,
            max_x: maxx,
            max_y: maxy,
            max_z: maxz,
        };
        let mut out: Vec<u32> = Vec::new();
        self.root.query_aabb(&range, &mut out);
        proof {
            assert(out@ =~= ids_where(self.stored(), in_box(range)));
        }
        out
    }

    /// The identifiers of the stored points within distance `|r|` of
    /// `(cx, cy, cz)`, in pre-order.
    pub fn query_sphere(&self, cx: i32, cy: i32, cz: i32, r: i32) -> (ids: Vec<u32>)
        requires
            self.wf(),
        ensures
            ids@ == ids_where(self.stored(), in_ball(cx, cy, cz, r)),
    {
        let mut out: Vec<u32> = Vec::new();
        self.root.query_sphere(cx, cy, cz, r, &mut out);
        proof {
            assert(out@ =~= ids_where(self.stored(), in_ball(cx, cy, cz, r)));
        }
        out
    }

    /// The number of stored points, held at `u32::MAX`.
    pub fn len(&self) -> (n: u32)
        requires
            self.wf(),
        ensures
            n == capped(self.stored().len()),
    {
        self.root.len()
    }

    /// Drops every point and every node below the root.
    pub fn clear(&mut self)
        requires
            old(self).wf(),
        ensures
            old(self).after_clear(*final(self)),
    {
        self.root.clear();
    }

    /// The corners of every node in pre-order, six per node: the lower
    /// corner's x, y, z, then the upper corner's.
    pub fn all_node_aabbs(&self) -> (r: Vec<i32>)
        requires
            self.wf(),
        ensures
            r@ == self.node_corners(),
    {
        let mut out: Vec<i32> = Vec::new();
        self.root.gather_bounds(&mut out);
        proof {
            assert(out@ =~= self.node_corners());
        }
        out
    }

    /// The coordinates of the stored points in pre-order, three per point;
    /// identifiers are left out.
    pub fn all_points(&self) -> (r: Vec<i32>)
        requires
            self.wf(),
        ensures
            r@ == coords_of(self.stored()),
    {
        let mut out: Vec<i32> = Vec::new();
        self.root.gather_coords(&mut out);
        proof {
            assert(out@ =~= coords_of(self.stored()));
        }
        out
    }
}

/// Every stored point lies inside the universe.
pub proof fn lemma_stored_inside(t: Octree)
    requires
        t.wf(),
    ensures
        forall|k: int| 0 <= k < t.stored().len() ==> t.bounds().holds(#[trigger] t.stored()[k]),
{
}

/// Along a run of insertions the index stays well formed over the same
/// universe.
pub proof fn lemma_run_keeps_bounds(ts: Seq<Octree>, ps: Seq<Point>)
    requires
        ts.len() == ps.len() + 1,
        ts[0].wf(),
        forall|i: int| 0 <= i < ps.len() ==> (#[trigger] ts[i]).after_insert(ts[i + 1], ps[i]),
    ensures
        forall|i: int| 0 <= i < ts.len() ==> (#[trigger] ts[i]).wf() && ts[i].bounds() == ts[0].bounds(),
    decreases ps.len(),
{
    if ps.len() > 0 {
        let n = ps.len() - 1;
        let ts1 = ts.drop_last();
        let ps1 = ps.drop_last();
        assert forall|i: int| 0 <= i < ps1.len() implies (#[trigger] ts1[i]).after_insert(
            ts1[i + 1],
            ps1[i],
        ) by {
            assert(ts[i].after_insert(ts[i + 1], ps[i]));
        }
        lemma_run_keeps_bounds(ts1, ps1);
        assert(ts1[n] == ts[n]);
        assert(ts[n].after_insert(ts[n + 1], ps[n]));
        assert forall|i: int| 0 <= i < ts.len() implies (#[trigger] ts[i]).wf() && ts[i].bounds()
            == ts[0].bounds() by {
            if i < ts.len() - 1 {
                assert(ts1[i] == ts[i]);
            }
        }
    }
}

/// Every point inserted inside the universe during a run of insertions is
/// still stored at the end of the run, and a box query over any box that
/// holds it returns its identifier.
pub proof fn law_inserted_point_is_found(ts: Seq<Octree>, ps: Seq<Point>, i: int, range: Aabb)
    requires
        ts.len() == ps.len() + 1,
        ts[0].wf(),
        forall|j: int| 0 <= j < ps.len() ==> (#[trigger] ts[j]).after_insert(ts[j + 1], ps[j]),
        0 <= i < ps.len(),
        ts[0].bounds().holds(ps[i]),
        range.holds(ps[i]),
    ensures
        ts.last().stored().contains(ps[i]),
        ids_where(ts.last().stored(), in_box(range)).contains(ps[i].id),
    decreases ps.len(),
{
    broadcast use vstd::seq_lib::group_to_multiset_ensures;

    let n = ps.len() - 1;
    let p = ps[i];
    lemma_run_keeps_bounds(ts, ps);
    assert(ts[n].after_insert(ts[n + 1], ps[n]));
    assert(ts[n].wf() && ts[n].bounds() == ts[0].bounds());
    if i == n {
        assert(ts[n + 1].stored().to_multiset().count(p) > 0);
    } else {
        let ts1 = ts.drop_last();
        let ps1 = ps.drop_last();
        assert forall|j: int| 0 <= j < ps1.len() implies (#[trigger] ts1[j]).after_insert(
            ts1[j + 1],
            ps1[j],
        ) by {
            assert(ts[j].after_insert(ts[j + 1], ps[j]));
        }
        law_inserted_point_is_found(ts1, ps1, i, range);
        assert(ts1.last() == ts[n]);
        law_insert_keeps_points(ts[n], ts[n + 1], ps[n], p);
    }
    let last = ts.last().stored();
    let k = choose|k: int| 0 <= k < last.len() && last[k] == p;
    lemma_ids_member(last, in_box(range), k);
}

/// Inserting never takes a stored point away.
pub proof fn law_insert_keeps_points(before: Octree, after: Octree, p: Point, q: Point)
    requires
        before.wf(),
        before.after_insert(after, p),
        before.stored().contains(q),
    ensures
        after.stored().contains(q),
{
    broadcast use vstd::seq_lib::group_to_multiset_ensures;

    if before.bounds().holds(p) {
        assert(before.stored().to_multiset().count(q) > 0);
        assert(after.stored().to_multiset().count(q) > 0);
    }
}

/// A point outside the universe is never stored: inserting it changes
/// neither the stored points nor the answer of any query.
pub proof fn law_outside_point_is_dropped(
    before: Octree,
    after: Octree,
    p: Point,
    range: Aabb,
    cx: i32,
    cy: i32,
    cz: i32,
    r: i32,
)
    requires
        before.wf(),
        before.after_insert(after, p),
        !before.bounds().holds(p),
    ensures
        after.stored() == before.stored(),
        !after.stored().contains(p),
        ids_where(after.stored(), in_box(range)) == ids_where(before.stored(), in_box(range)),
        ids_where(after.stored(), in_ball(cx, cy, cz, r)) == ids_where(
            before.stored(),
            in_ball(cx, cy, cz, r),
        ),
{
    lemma_stored_inside(after);
    if after.stored().contains(p) {
        let k = choose|k: int| 0 <= k < after.stored().len() && after.stored()[k] == p;
        assert(after.bounds().holds(after.stored()[k]));
    }
}

/// The number of stored points grows by one exactly when the inserted point
/// lies inside the universe, however the tree splits.
pub proof fn law_insert_count(before: Octree, after: Octree, p: Point)
    requires
        before.wf(),
        before.after_insert(after, p),
    ensures
        after.stored().len() == before.stored().len() + if before.bounds().holds(p) {
            1int
        } else {
            0int
        },
{
    broadcast use vstd::seq_lib::group_to_multiset_ensures;

    if before.bounds().holds(p) {
        assert(after.stored().len() == after.stored().to_multiset().len());
        assert(before.stored().len() == before.stored().to_multiset().len());
    }
}

/// How many points of `ps` the box `b` holds.
pub open spec fn count_inside(b: Aabb, ps: Seq<Point>) -> nat
    decreases ps.len(),
{
    if ps.len() == 0 {
        0
    } else {
        count_inside(b, ps.drop_last()) + if b.holds(ps.last()) {
            1nat
        } else {
            0nat
        }
    }
}

/// Starting from an empty index, after any run of insertions the number of
/// stored points is the number of inserted points that the universe holds.
pub proof fn law_count_is_points_inside(ts: Seq<Octree>, ps: Seq<Point>)
    requires
        ts.len() == ps.len() + 1,
        ts[0].wf(),
        ts[0].stored().len() == 0,
        forall|i: int| 0 <= i < ps.len() ==> (#[trigger] ts[i]).after_insert(ts[i + 1], ps[i]),
    ensures
        ts.last().wf(),
        ts.last().bounds() == ts[0].bounds(),
        ts.last().stored().len() == count_inside(ts[0].bounds(), ps),
    decreases ps.len(),
{
    if ps.len() > 0 {
        let n = ps.len() - 1;
        let ts1 = ts.drop_last();
        let ps1 = ps.drop_last();
        assert forall|i: int| 0 <= i < ps1.len() implies (#[trigger] ts1[i]).after_insert(
            ts1[i + 1],
            ps1[i],
        ) by {
            assert(ts[i].after_insert(ts[i + 1], ps[i]));
        }
        law_count_is_points_inside(ts1, ps1);
        assert(ts[n].after_insert(ts[n + 1], ps[n]));
        law_insert_count(ts[n], ts[n + 1], ps[n]);
    }
}

/// Inserting keeps every node: the dump still starts with the universe
/// bounds, and grows by forty-eight values, eight nodes, for each split.
pub proof fn law_insert_dump_growth(before: Octree, after: Octree, p: Point)
    requires
        before.wf(),
        before.after_insert(after, p),
    ensures
        after.node_corners().subrange(0, 6) == before.bounds().corners(),
        after.node_corners().len() >= before.node_corners().len(),
        (after.node_corners().len() - before.node_corners().len()) % 48 == 0,
{
    law_insert_grows_dump_by_splits(before.tree(), after.tree(), p);
}

/// After a clear the count is zero and the dump of node bounds holds the
/// universe alone.
pub proof fn law_clear_resets(before: Octree, after: Octree)
    requires
        before.wf(),
        before.after_clear(after),
    ensures
        capped(after.stored().len()) == 0,
        after.node_corners() == after.bounds().corners(),
        after.node_corners().len() == 6,
{
}

/// A sphere query of radius zero returns exactly the identifiers of the
/// points stored at its centre.
pub proof fn law_zero_radius_sphere(t: Octree, cx: i32, cy: i32, cz: i32)
    requires
        t.wf(),
    ensures
        ids_where(t.stored(), in_ball(cx, cy, cz, 0)) == ids_where(t.stored(), at_coords(cx, cy, cz)),
{
    let s = t.stored();
    assert forall|k: int| 0 <= k < s.len() implies in_ball(cx, cy, cz, 0)(#[trigger] s[k])
        == at_coords(cx, cy, cz)(s[k]) by {
        lemma_zero_radius(s[k], cx, cy, cz);
    }
    lemma_ids_agree(s, in_ball(cx, cy, cz, 0), at_coords(cx, cy, cz));
}

} // verus!
