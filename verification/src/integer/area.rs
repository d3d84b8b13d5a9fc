//! Laws of the exact areas that `signed_area` and `deviation` compute.
use vstd::prelude::*;

use crate::integer::geom::{tri_area, Point};
use crate::integer::{
    abs_int, convex_quad, cross_area, deviation_spec, hole_end, holes_area_upto, holes_empty,
    lemma_four_area, polygon_area, ring_area, shoelace_term, shoelace_upto, triangles_area_upto,
    Index,
};

verus! {

/// Ring `s` read from its second point on, ending with its first point.
pub open spec fn rotate_ring(s: Seq<Point>) -> Seq<Point> {
    s.subrange(1, s.len() as int).push(s[0])
}

proof fn lemma_rotate_upto(s: Seq<Point>, k: int)
    requires
        s.len() >= 2,
        0 <= k <= s.len() - 1,
    ensures
        shoelace_upto(rotate_ring(s), k) == shoelace_upto(s, k + 1) - shoelace_term(s, 0),
    decreases k,
{
    let t = rotate_ring(s);
    if k == 0 {
        assert(shoelace_upto(s, 0) == 0);
    } else {
        lemma_rotate_upto(s, k - 1);
        assert(shoelace_term(t, k - 1) == shoelace_term(s, k));
    }
}

/// The signed area of a ring does not depend on the point it is read from.
pub proof fn lemma_ring_area_rotate(s: Seq<Point>)
    requires
        s.len() >= 1,
    ensures
        ring_area(rotate_ring(s)) == ring_area(s),
{
    let n = s.len() as int;
    let t = rotate_ring(s);
    if n == 1 {
        assert(t =~= s);
    } else {
        lemma_rotate_upto(s, n - 1);
        assert(shoelace_term(t, n - 1) == shoelace_term(s, 0));
    }
}

/// The shoelace term of an edge read the other way round is negated.
proof fn lemma_term_flip(a: Point, b: Point)
    ensures
        (a[0] - b[0]) * (b[1] + a[1]) == -((b[0] - a[0]) * (a[1] + b[1])),
{
    let (ax, ay, bx, by) = (a[0] as int, a[1] as int, b[0] as int, b[1] as int);
    assert((ax - bx) * (by + ay) == -((bx - ax) * (ay + by))) by (nonlinear_arith);
}

proof fn lemma_reverse_upto(s: Seq<Point>, k: int)
    requires
        1 <= k <= s.len(),
    ensures
        shoelace_upto(s.reverse(), k) == -(shoelace_term(s, 0) + ring_area(s) - shoelace_upto(
            s,
            s.len() - k + 1,
        )),
    decreases k,
{
    let n = s.len() as int;
    let r = s.reverse();
    if k == 1 {
        assert(shoelace_term(r, 0) == -shoelace_term(s, 0)) by {
            assert(r[n - 1] == s[0]);
            assert(r[0] == s[n - 1]);
            lemma_term_flip(s[0], s[n - 1]);
        }
        assert(shoelace_upto(r, 0) == 0);
        assert(shoelace_upto(s, n) == shoelace_upto(s, n - 1) + shoelace_term(s, n - 1));
    } else {
        lemma_reverse_upto(s, k - 1);
        assert(shoelace_term(r, k - 1) == -shoelace_term(s, n - k + 1)) by {
            assert(r[k - 1] == s[n - k]);
            assert(r[k - 2] == s[n - k + 1]);
            lemma_term_flip(s[n - k + 1], s[n - k]);
        }
    }
}

/// Reading a ring backwards negates its signed area.
pub proof fn lemma_ring_area_reverse(s: Seq<Point>)
    requires
        s.len() >= 1,
    ensures
        ring_area(s.reverse()) == -ring_area(s),
{
    lemma_reverse_upto(s, s.len() as int);
    assert(shoelace_upto(s, 1) == shoelace_term(s, 0)) by {
        assert(shoelace_upto(s, 0) == 0);
    }
}

/// The summed area of the first `k` triangles of `t1 + t2`, with `t1` made
/// of whole triangles: that of `t1`'s triangles, then `t2`'s.
proof fn lemma_area_prefix<N: Index>(data: Seq<Point>, t1: Seq<N>, t2: Seq<N>, k: int)
    requires
        t1.len() % 3 == 0,
        0 <= k <= t1.len() / 3,
    ensures
        triangles_area_upto(data, t1 + t2, k) == triangles_area_upto(data, t1, k),
    decreases k,
{
    if k > 0 {
        lemma_area_prefix(data, t1, t2, k - 1);
        let j = 3 * (k - 1);
        assert((t1 + t2)[j] == t1[j]);
        assert((t1 + t2)[j + 1] == t1[j + 1]);
        assert((t1 + t2)[j + 2] == t1[j + 2]);
    }
}

proof fn lemma_area_suffix<N: Index>(data: Seq<Point>, t1: Seq<N>, t2: Seq<N>, k: int)
    requires
        t1.len() % 3 == 0,
        0 <= k <= t2.len() / 3,
    ensures
        triangles_area_upto(data, t1 + t2, t1.len() / 3 + k) == triangles_area_upto(
            data,
            t1,
            (t1.len() / 3) as int,
        ) + triangles_area_upto(data, t2, k),
    decreases k,
{
    let m = t1.len() / 3;
    if k == 0 {
        lemma_area_prefix(data, t1, t2, m as int);
    } else {
        lemma_area_suffix(data, t1, t2, k - 1);
        let j = 3 * (k - 1);
        assert(3 * (m + k - 1) == t1.len() + j);
        assert((t1 + t2)[t1.len() + j] == t2[j]);
        assert((t1 + t2)[t1.len() + j + 1] == t2[j + 1]);
        assert((t1 + t2)[t1.len() + j + 2] == t2[j + 2]);
    }
}

/// The triangles' summed area adds up over a list cut at a triangle's end.
pub proof fn lemma_triangles_area_concat<N: Index>(data: Seq<Point>, t1: Seq<N>, t2: Seq<N>)
    requires
        t1.len() % 3 == 0,
    ensures
        triangles_area_upto(data, t1 + t2, ((t1 + t2).len() / 3) as int) == triangles_area_upto(
            data,
            t1,
            (t1.len() / 3) as int,
        ) + triangles_area_upto(data, t2, (t2.len() / 3) as int),
{
    assert((t1 + t2).len() / 3 == t1.len() / 3 + t2.len() / 3);
    lemma_area_suffix(data, t1, t2, (t2.len() / 3) as int);
}

/// The deviation of a triangulation does not depend on the order of its
/// triangles: two lists of whole triangles give the same deviation in
/// either order.
pub proof fn lemma_deviation_swap_parts<N: Index>(
    data: Seq<Point>,
    holes: Seq<N>,
    t1: Seq<N>,
    t2: Seq<N>,
)
    requires
        t1.len() % 3 == 0,
        t2.len() % 3 == 0,
    ensures
        deviation_spec(data, holes, t1 + t2) == deviation_spec(data, holes, t2 + t1),
{
    lemma_triangles_area_concat(data, t1, t2);
    lemma_triangles_area_concat(data, t2, t1);
    assert((t1 + t2).len() == (t2 + t1).len());
}

/// The unsigned area of a triangle does not depend on the order of its
/// corners: rotating them, or swapping two, keeps it.
pub proof fn lemma_cross_area_order(a: Point, b: Point, c: Point)
    ensures
        abs_int(cross_area(b, c, a)) == abs_int(cross_area(a, b, c)),
        abs_int(cross_area(a, c, b)) == abs_int(cross_area(a, b, c)),
{
    let (ax, ay, bx, by, cx, cy) = (a[0] as int, a[1] as int, b[0] as int, b[1] as int, c[0] as int, c[1] as int);
    assert((bx - ax) * (cy - by) - (bx - cx) * (ay - by) == (ax - cx) * (by - ay) - (ax - bx) * (cy
        - ay)) by (nonlinear_arith);
    assert((ax - bx) * (cy - ay) - (ax - cx) * (by - ay) == -((ax - cx) * (by - ay) - (ax - bx) * (cy
        - ay))) by (nonlinear_arith);
}

/// Triangle `j` of `t` with its corners rotated (`swap` false) or with its
/// last two corners swapped (`swap` true).
pub open spec fn reorder_corners<N>(t: Seq<N>, j: int, swap: bool) -> Seq<N> {
    let (a, b, c) = (t[3 * j], t[3 * j + 1], t[3 * j + 2]);
    if swap {
        t.update(3 * j + 1, c).update(3 * j + 2, b)
    } else {
        t.update(3 * j, b).update(3 * j + 1, c).update(3 * j + 2, a)
    }
}

proof fn lemma_area_reorder<N: Index>(data: Seq<Point>, t: Seq<N>, j: int, swap: bool, k: int)
    requires
        0 <= j,
        3 * j + 3 <= t.len(),
        0 <= k <= t.len() / 3,
    ensures
        triangles_area_upto(data, reorder_corners(t, j, swap), k) == triangles_area_upto(data, t, k),
    decreases k,
{
    let t2 = reorder_corners(t, j, swap);
    if k > 0 {
        lemma_area_reorder(data, t, j, swap, k - 1);
        let i = 3 * (k - 1);
        if k - 1 == j {
            lemma_cross_area_order(
                data[t[i].to_nat() as int],
                data[t[i + 1].to_nat() as int],
                data[t[i + 2].to_nat() as int],
            );
        } else {
            assert(t2[i] == t[i]);
            assert(t2[i + 1] == t[i + 1]);
            assert(t2[i + 2] == t[i + 2]);
        }
    }
}

/// The deviation of a triangulation does not depend on the order of each
/// triangle's corners: rotating them, or swapping two, keeps it.
pub proof fn lemma_deviation_reorder_corners<N: Index>(
    data: Seq<Point>,
    holes: Seq<N>,
    t: Seq<N>,
    j: int,
    swap: bool,
)
    requires
        0 <= j,
        3 * j + 3 <= t.len(),
    ensures
        deviation_spec(data, holes, reorder_corners(t, j, swap)) == deviation_spec(data, holes, t),
{
    lemma_area_reorder(data, t, j, swap, (t.len() / 3) as int);
}

/// The triangle area that `deviation` sums is the signed area of the
/// ear tests with the sign turned.
proof fn lemma_cross_is_tri(a: Point, b: Point, c: Point)
    ensures
        cross_area(a, b, c) == -tri_area(a, b, c),
{
    let (ax, ay, bx, by, cx, cy) = (a[0] as int, a[1] as int, b[0] as int, b[1] as int, c[0] as int, c[1] as int);
    assert((ax - cx) * (by - ay) - (ax - bx) * (cy - ay) == -((by - ay) * (cx - bx) - (bx - ax) * (cy
        - by))) by (nonlinear_arith);
}

/// Hole rings without points add no area.
proof fn lemma_empty_holes_area<N: Index>(data: Seq<Point>, holes: Seq<N>, k: int)
    requires
        holes_empty(holes, data.len() as int),
        0 <= k <= holes.len(),
    ensures
        holes_area_upto(data, holes, k) == 0,
    decreases k,
{
    if k > 0 {
        lemma_empty_holes_area(data, holes, k - 1);
        assert(holes[k - 1].to_nat() == data.len());
        if k < holes.len() {
            assert(holes[k].to_nat() == data.len());
        }
        assert(hole_end(holes, k - 1, data.len() as int) == data.len());
    }
}

/// The two triangles that the triangulator cuts a convex quadrilateral into
/// cover it exactly: the deviation is zero.
pub proof fn lemma_convex_quad_covered<N: Index>(data: Seq<Point>, holes: Seq<N>)
    requires
        convex_quad(data, holes),
        forall|k: nat| k < 4 ==> #[trigger] N::from_nat(k).to_nat() == k,
    ensures
        deviation_spec(
            data,
            holes,
            seq![
                N::from_nat(2),
                N::from_nat(3),
                N::from_nat(0),
                N::from_nat(0),
                N::from_nat(1),
                N::from_nat(2),
            ],
        ) == 0,
{
    let t = seq![
        N::from_nat(2),
        N::from_nat(3),
        N::from_nat(0),
        N::from_nat(0),
        N::from_nat(1),
        N::from_nat(2),
    ];
    assert(N::from_nat(0).to_nat() == 0);
    assert(N::from_nat(1).to_nat() == 1);
    assert(N::from_nat(2).to_nat() == 2);
    assert(N::from_nat(3).to_nat() == 3);
    lemma_four_area(data);
    lemma_empty_holes_area(data, holes, holes.len() as int);
    assert(data.subrange(0, 4) =~= data);
    if holes.len() > 0 {
        assert(holes[0].to_nat() == 4);
    }
    lemma_cross_is_tri(data[2], data[3], data[0]);
    lemma_cross_is_tri(data[0], data[1], data[2]);
    reveal_with_fuel(triangles_area_upto, 3);
    assert(triangles_area_upto(data, t, 2) == abs_int(cross_area(data[2], data[3], data[0]))
        + abs_int(cross_area(data[0], data[1], data[2])));
    assert(polygon_area(data, holes) == ring_area(data));
}

/// The unsigned areas of the triangles of `t`, one per whole triangle.
pub open spec fn tri_areas<N: Index>(data: Seq<Point>, t: Seq<N>) -> Seq<int> {
    Seq::new(
        (t.len() / 3) as nat,
        |j: int|
            abs_int(
                cross_area(
                    data[t[3 * j].to_nat() as int],
                    data[t[3 * j + 1].to_nat() as int],
                    data[t[3 * j + 2].to_nat() as int],
                ),
            ),
    )
}

proof fn lemma_area_fold<N: Index>(data: Seq<Point>, t: Seq<N>, k: int)
    requires
        0 <= k <= t.len() / 3,
    ensures
        triangles_area_upto(data, t, k) == tri_areas(data, t).subrange(0, k).fold_left(
            0int,
            |acc: int, x: int| acc + x,
        ),
    decreases k,
{
    let a = tri_areas(data, t).subrange(0, k);
    if k > 0 {
        lemma_area_fold(data, t, k - 1);
        assert(a.drop_last() =~= tri_areas(data, t).subrange(0, k - 1));
    }
}

/// A sequence read through a permutation of its positions holds the same
/// values, counted with repeats.
proof fn lemma_permuted_multiset(a: Seq<int>, p: Seq<int>)
    requires
        p.len() == a.len(),
        forall|i: int| 0 <= i < p.len() ==> 0 <= #[trigger] p[i] < a.len(),
        forall|i: int, j: int| 0 <= i < j < p.len() ==> p[i] != p[j],
    ensures
        Seq::new(a.len(), |i: int| a[p[i]]).to_multiset() == a.to_multiset(),
    decreases a.len(),
{
    broadcast use vstd::seq_lib::group_to_multiset_ensures;

    let n = a.len() as int;
    let b = Seq::new(a.len(), |i: int| a[p[i]]);
    if n == 0 {
        assert(b =~= a);
    } else {
        let j = p[n - 1];
        let a2 = a.remove(j);
        let p2 = Seq::new((n - 1) as nat, |i: int| if p[i] > j { p[i] - 1 } else { p[i] });
        assert forall|i: int| 0 <= i < p2.len() implies 0 <= #[trigger] p2[i] < a2.len() by {
            assert(p[i] != p[n - 1]);
        }
        assert forall|i: int, k: int| 0 <= i < k < p2.len() implies p2[i] != p2[k] by {
            assert(p[i] != p[n - 1]);
            assert(p[k] != p[n - 1]);
        }
        lemma_permuted_multiset(a2, p2);
        let b2 = Seq::new(a2.len(), |i: int| a2[p2[i]]);
        assert forall|i: int| 0 <= i < n - 1 implies b2[i] == b[i] by {
            assert(p[i] != p[n - 1]);
        }
        assert(b2 =~= b.drop_last());
        assert(b =~= b.drop_last().push(a[j]));
        vstd::seq_lib::to_multiset_build(b.drop_last(), a[j]);
        vstd::seq_lib::to_multiset_remove(a, j);
        assert(a.to_multiset() =~= a2.to_multiset().insert(a[j])) by {
            assert(a.to_multiset().count(a[j]) > 0) by {
                assert(a.contains(a[j]));
            }
        }
    }
}

/// Triangle `i` of `t2` is triangle `j` of `t`, its corners in some order.
pub open spec fn same_triangle<N>(t2: Seq<N>, i: int, t: Seq<N>, j: int) -> bool {
    let (a, b, c) = (t[3 * j], t[3 * j + 1], t[3 * j + 2]);
    let x = (t2[3 * i], t2[3 * i + 1], t2[3 * i + 2]);
    ||| x == (a, b, c)
    ||| x == (b, c, a)
    ||| x == (c, a, b)
    ||| x == (a, c, b)
    ||| x == (c, b, a)
    ||| x == (b, a, c)
}

/// The deviation of a triangulation does not depend on the order of its
/// triangles nor on the order of the corners of each: when each triangle of
/// `t2` is a triangle of `t` (`p` says which, using each once), with its
/// corners in any order, the two deviations are the same.
pub proof fn lemma_deviation_reorder<N: Index>(
    data: Seq<Point>,
    holes: Seq<N>,
    t: Seq<N>,
    t2: Seq<N>,
    p: Seq<int>,
)
    requires
        t2.len() / 3 == t.len() / 3,
        p.len() == t.len() / 3,
        forall|i: int| 0 <= i < p.len() ==> 0 <= #[trigger] p[i] < p.len(),
        forall|i: int, j: int| 0 <= i < j < p.len() ==> p[i] != p[j],
        forall|i: int| 0 <= i < p.len() ==> #[trigger] same_triangle(t2, i, t, p[i]),
    ensures
        deviation_spec(data, holes, t2) == deviation_spec(data, holes, t),
{
    let n = (t.len() / 3) as int;
    let a = tri_areas(data, t);
    let b = tri_areas(data, t2);
    assert forall|i: int| 0 <= i < n implies b[i] == a[p[i]] by {
        let j = p[i];
        assert(same_triangle(t2, i, t, j));
        let pa = data[t[3 * j].to_nat() as int];
        let pb = data[t[3 * j + 1].to_nat() as int];
        let pc = data[t[3 * j + 2].to_nat() as int];
        lemma_cross_area_order(pa, pb, pc);
        lemma_cross_area_order(pb, pc, pa);
        lemma_cross_area_order(pc, pa, pb);
    }
    assert(b =~= Seq::new(a.len(), |i: int| a[p[i]]));
    lemma_permuted_multiset(a, p);
    let f = |acc: int, x: int| acc + x;
    assert(vstd::seq_lib::commutative_foldl(f));
    vstd::seq_lib::lemma_fold_left_permutation(a, b, f, 0int);
    lemma_area_fold(data, t, n);
    lemma_area_fold(data, t2, n);
    assert(a.subrange(0, n) =~= a);
    assert(b.subrange(0, n) =~= b);
}

} // verus!
