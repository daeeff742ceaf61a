use vstd::prelude::*;

use crate::geometry::{in_sphere, Aabb, Point};

verus! {

/// The identifiers of the points of `s` that `keep` accepts, in order.
pub open spec fn ids_where(s: Seq<Point>, keep: spec_fn(Point) -> bool) -> Seq<u32>
    decreases s.len(),
{
    if s.len() == 0 {
        seq![]
    } else {
        let last = s[s.len() - 1];
        ids_where(s.drop_last(), keep) + if keep(last) {
            seq![last.id]
        } else {
            seq![]
        }
    }
}

/// The coordinates of the points of `s`, three per point, in order.
pub open spec fn coords_of(s: Seq<Point>) -> Seq<i32>
    decreases s.len(),
{
    if s.len() == 0 {
        seq![]
    } else {
        let last = s[s.len() - 1];
        coords_of(s.drop_last()) + seq![last.x, last.y, last.z]
    }
}

/// Accepts the points that `range` holds.
pub open spec fn in_box(range: Aabb) -> spec_fn(Point) -> bool {
    |q: Point| range.holds(q)
}

/// Accepts the points of the closed ball of radius `|r|` around `(cx, cy, cz)`.
pub open spec fn in_ball(cx: i32, cy: i32, cz: i32, r: i32) -> spec_fn(Point) -> bool {
    |q: Point| in_sphere(q, cx, cy, cz, r)
}

/// Accepts the points at exactly `(cx, cy, cz)`.
pub open spec fn at_coords(cx: i32, cy: i32, cz: i32) -> spec_fn(Point) -> bool {
    |q: Point| q.x == cx && q.y == cy && q.z == cz
}

pub proof fn lemma_ids_concat(a: Seq<Point>, b: Seq<Point>, keep: spec_fn(Point) -> bool)
    ensures
        ids_where(a + b, keep) == ids_where(a, keep) + ids_where(b, keep),
    decreases b.len(),
{
    if b.len() == 0 {
        assert(a + b =~= a);
        assert(ids_where(a, keep) + ids_where(b, keep) =~= ids_where(a, keep));
    } else {
        lemma_ids_concat(a, b.drop_last(), keep);
        assert((a + b).drop_last() =~= a + b.drop_last());
        assert((a + b)[(a + b).len() - 1] == b[b.len() - 1]);
        let tail = if keep(b[b.len() - 1]) {
            seq![b[b.len() - 1].id]
        } else {
            seq![]
        };
        assert(ids_where(a, keep) + ids_where(b.drop_last(), keep) + tail =~= ids_where(a, keep)
            + (ids_where(b.drop_last(), keep) + tail));
    }
}

pub proof fn lemma_ids_none(s: Seq<Point>, keep: spec_fn(Point) -> bool)
    requires
        forall|k: int| 0 <= k < s.len() ==> !keep(#[trigger] s[k]),
    ensures
        ids_where(s, keep) == Seq::<u32>::empty(),
    decreases s.len(),
{
    if s.len() > 0 {
        assert forall|k: int| 0 <= k < s.drop_last().len() implies !keep(
            #[trigger] s.drop_last()[k],
        ) by {
            assert(s.drop_last()[k] == s[k]);
        }
        lemma_ids_none(s.drop_last(), keep);
        assert(!keep(s[s.len() - 1]));
        assert(Seq::<u32>::empty() + Seq::<u32>::empty() =~= Seq::<u32>::empty());
    }
}

/// Two filters that agree on every point of `s` pick the same identifiers.
pub proof fn lemma_ids_agree(s: Seq<Point>, f: spec_fn(Point) -> bool, g: spec_fn(Point) -> bool)
    requires
        forall|k: int| 0 <= k < s.len() ==> f(#[trigger] s[k]) == g(s[k]),
    ensures
        ids_where(s, f) == ids_where(s, g),
    decreases s.len(),
{
    if s.len() > 0 {
        assert forall|k: int| 0 <= k < s.drop_last().len() implies f(#[trigger] s.drop_last()[k])
            == g(s.drop_last()[k]) by {
            assert(s.drop_last()[k] == s[k]);
        }
        lemma_ids_agree(s.drop_last(), f, g);
        assert(f(s[s.len() - 1]) == g(s[s.len() - 1]));
    }
}

/// A point of `s` that `keep` accepts has its identifier among those picked.
pub proof fn lemma_ids_member(s: Seq<Point>, keep: spec_fn(Point) -> bool, k: int)
    requires
        0 <= k < s.len(),
        keep(s[k]),
    ensures
        ids_where(s, keep).contains(s[k].id),
    decreases s.len(),
{
    let tail = if keep(s[s.len() - 1]) {
        seq![s[s.len() - 1].id]
    } else {
        seq![]
    };
    if k == s.len() - 1 {
        assert((ids_where(s.drop_last(), keep) + tail)[ids_where(s.drop_last(), keep).len() as int]
            == s[k].id);
    } else {
        assert(s.drop_last()[k] == s[k]);
        lemma_ids_member(s.drop_last(), keep, k);
        let j = choose|j: int|
            0 <= j < ids_where(s.drop_last(), keep).len() && ids_where(s.drop_last(), keep)[j]
                == s[k].id;
        assert((ids_where(s.drop_last(), keep) + tail)[j] == s[k].id);
    }
}

pub proof fn lemma_coords_concat(a: Seq<Point>, b: Seq<Point>)
    ensures
        coords_of(a + b) == coords_of(a) + coords_of(b),
    decreases b.len(),
{
    if b.len() == 0 {
        assert(a + b =~= a);
        assert(coords_of(a) + coords_of(b) =~= coords_of(a));
    } else {
        lemma_coords_concat(a, b.drop_last());
        assert((a + b).drop_last() =~= a + b.drop_last());
        assert((a + b)[(a + b).len() - 1] == b[b.len() - 1]);
        let last = b[b.len() - 1];
        assert(coords_of(a) + coords_of(b.drop_last()) + seq![last.x, last.y, last.z]
            =~= coords_of(a) + (coords_of(b.drop_last()) + seq![last.x, last.y, last.z]));
    }
}

} // verus!
