//! Whether a ring vertex is an ear: its triangle is convex and holds no
//! other reflex vertex.
use vstd::prelude::*;

use crate::integer::geom::{
    area, fits_i32, in_grid, in_triangle_except_first, lemma_z_order_mono, max_i32, max_int, min_i32,
    min_int, point_in_triangle_except_first, small_area_fits, small_area_non_negative,
    small_path_spec, small_point_in_triangle, small_triangle_fits, tri_area, z_order,
    z_order_spec, Point,
};
use crate::integer::nodes::{
    is_ring, lemma_ring_basics, lemma_z_basics, links_ok, node_links_in, z_none, z_ok,
    Node,
};
use crate::integer::polygon::xy_of;

verus! {

pub open spec fn min3(a: int, b: int, c: int) -> int {
    min_int(a, min_int(b, c))
}

pub open spec fn max3(a: int, b: int, c: int) -> int {
    max_int(a, max_int(b, c))
}

/// `p` lies in the bounding box of the triangle `a b c`.
pub open spec fn in_box3(p: Point, a: Point, b: Point, c: Point) -> bool {
    &&& min3(a[0] as int, b[0] as int, c[0] as int) <= p[0]
    &&& p[0] <= max3(a[0] as int, b[0] as int, c[0] as int)
    &&& min3(a[1] as int, b[1] as int, c[1] as int) <= p[1]
    &&& p[1] <= max3(a[1] as int, b[1] as int, c[1] as int)
}

/// Ring vertex `r[k]` keeps `r[0]` from being an ear: it lies in the triangle
/// `r[n-1] r[0] r[1]` (other than at `r[n-1]`) and is reflex or collinear.
pub open spec fn ear_blocker(nodes: Seq<Node>, r: Seq<usize>, k: int) -> bool {
    let n = r.len() as int;
    let a = xy_of(nodes, r[n - 1]);
    let b = xy_of(nodes, r[0]);
    let c = xy_of(nodes, r[1]);
    let p = xy_of(nodes, r[k]);
    &&& in_box3(p, a, b, c)
    &&& in_triangle_except_first(a, b, c, p)
    &&& tri_area(xy_of(nodes, r[k - 1]), p, xy_of(nodes, r[k + 1])) >= 0
}

/// `r[0]` is an ear of ring `r`: its corner is convex and no other vertex of
/// the ring blocks it.
pub open spec fn is_ear_spec(nodes: Seq<Node>, r: Seq<usize>) -> bool {
    let n = r.len() as int;
    &&& tri_area(xy_of(nodes, r[n - 1]), xy_of(nodes, r[0]), xy_of(nodes, r[1])) < 0
    &&& forall|k: int| 2 <= k < n - 1 ==> !#[trigger] ear_blocker(nodes, r, k)
}

/// check whether a polygon node forms a valid ear with adjacent nodes
///
/// Returns whether it does, and the ring neighbours before and after it.
#[verifier::spinoff_prover]
pub fn is_ear(nodes: &Vec<Node>, ear_i: usize, Ghost(r): Ghost<Seq<usize>>) -> (res: (
    bool,
    usize,
    usize,
))
    requires
        is_ring(nodes@, r),
        r.len() >= 3,
        r[0] == ear_i,
    ensures
        res.0 == is_ear_spec(nodes@, r),
        res.1 == r[r.len() - 1],
        res.2 == r[1],
{
    let ghost n = r.len() as int;
    proof {
        lemma_ring_basics(nodes@, r, 0);
        lemma_ring_basics(nodes@, r, 1);
        lemma_ring_basics(nodes@, r, n - 1);
    }
    let b = nodes[ear_i];
    let a_i = b.prev;
    let c_i = b.next;
    let a = nodes[a_i];
    let c = nodes[c_i];
    if area(a.xy, b.xy, c.xy) >= 0 {
        return (false, a_i, c_i);
    }
    let x0 = min_i32(a.xy[0], min_i32(b.xy[0], c.xy[0]));
    let y0 = min_i32(a.xy[1], min_i32(b.xy[1], c.xy[1]));
    let x1 = max_i32(a.xy[0], max_i32(b.xy[0], c.xy[0]));
    let y1 = max_i32(a.xy[1], max_i32(b.xy[1], c.xy[1]));
    proof {
        lemma_ring_basics(nodes@, r, 2);
    }
    let mut p_i = c.next;
    let mut p_prev_i = c_i;
    let ghost mut k: int = 2;
    while p_i != a_i
        invariant
            is_ring(nodes@, r),
            n == r.len(),
            n >= 3,
            2 <= k <= n - 1,
            p_i == r[k],
            p_prev_i == r[k - 1],
            a_i == r[n - 1],
            a == nodes@[a_i as int],
            b == nodes@[r[0] as int],
            c == nodes@[c_i as int],
            c_i == r[1],
            x0 == min3(a.xy[0] as int, b.xy[0] as int, c.xy[0] as int),
            y0 == min3(a.xy[1] as int, b.xy[1] as int, c.xy[1] as int),
            x1 == max3(a.xy[0] as int, b.xy[0] as int, c.xy[0] as int),
            y1 == max3(a.xy[1] as int, b.xy[1] as int, c.xy[1] as int),
            forall|j: int| 2 <= j < k ==> !#[trigger] ear_blocker(nodes@, r, j),
        decreases n - k,
    {
        proof {
            lemma_ring_basics(nodes@, r, k);
            lemma_ring_basics(nodes@, r, k - 1);
            if k == n - 1 {
                assert(r[k] == a_i);
            }
            lemma_ring_basics(nodes@, r, k + 1);
        }
        let p = nodes[p_i];
        let p_prev = nodes[p_prev_i];
        let p_next = nodes[p.next];
        if (p.xy[0] >= x0 && p.xy[0] <= x1 && p.xy[1] >= y0 && p.xy[1] <= y1)
            && point_in_triangle_except_first(a.xy, b.xy, c.xy, p.xy) && area(
            p_prev.xy,
            p.xy,
            p_next.xy,
        ) >= 0 {
            assert(ear_blocker(nodes@, r, k));
            return (false, a_i, c_i);
        }
        assert(!ear_blocker(nodes@, r, k));
        p_prev_i = p_i;
        p_i = p.next;
        proof {
            k = k + 1;
        }
    }
    proof {
        if k < n - 1 {
            assert(r[k] != r[n - 1]);
        }
    }
    (true, a_i, c_i)
}

/// Every node of the arena lies in the box `[x0, x1] x [y0, y1]`, whose
/// extents pass the small-path test and fit in `i32`.
pub open spec fn coords_small(nodes: Seq<Node>, x0: int, y0: int, x1: int, y1: int) -> bool {
    &&& x1 - x0 <= i32::MAX
    &&& y1 - y0 <= i32::MAX
    &&& x0 <= x1
    &&& y0 <= y1
    &&& small_path_spec(x1 - x0, y1 - y0)
    &&& forall|i: int|
        0 <= i < nodes.len() ==> x0 <= (#[trigger] nodes[i]).xy[0] <= x1 && y0 <= nodes[i].xy[1]
            <= y1
}

/// Every node of ring `r` lies in the box `[x0, x1] x [y0, y1]`, whose
/// extents pass the small-path test.
pub open spec fn ring_coords_small(
    nodes: Seq<Node>,
    r: Seq<usize>,
    x0: int,
    y0: int,
    x1: int,
    y1: int,
) -> bool {
    &&& x0 <= x1
    &&& y0 <= y1
    &&& small_path_spec(x1 - x0, y1 - y0)
    &&& forall|k: int|
        0 <= k < r.len() ==> x0 <= (#[trigger] nodes[r[k] as int]).xy[0] <= x1 && y0
            <= nodes[r[k] as int].xy[1] <= y1
}

/// A box that holds every node of the arena holds every node of a ring.
pub proof fn lemma_ring_coords_small(nodes: Seq<Node>, r: Seq<usize>, x0: int, y0: int, x1: int, y1: int)
    requires
        coords_small(nodes, x0, y0, x1, y1),
        forall|k: int| 0 <= k < r.len() ==> (#[trigger] r[k]) < nodes.len(),
    ensures
        ring_coords_small(nodes, r, x0, y0, x1, y1),
{
    assert forall|k: int| 0 <= k < r.len() implies x0 <= (#[trigger] nodes[r[k] as int]).xy[0] <= x1
        && y0 <= nodes[r[k] as int].xy[1] <= y1 by {
        assert(r[k] < nodes.len());
    }
}

pub open spec fn in_box(p: Point, x0: int, y0: int, x1: int, y1: int) -> bool {
    x0 <= p[0] <= x1 && y0 <= p[1] <= y1
}

proof fn lemma_small_product(dx: int, dy: int, rx: int, ry: int)
    requires
        -rx <= dx <= rx,
        -ry <= dy <= ry,
        rx <= i32::MAX,
        ry <= i32::MAX,
        small_path_spec(rx, ry),
    ensures
        fits_i32(dx * dy),
        fits_i32(dx),
        fits_i32(dy),
{
    if rx == 0 {
        assert(dx == 0);
    } else if ry == 0 {
        assert(dy == 0);
    } else {
        assert(rx * ry <= i32::MAX);
        assert(-(rx * ry) <= dx * dy <= rx * ry) by (nonlinear_arith)
            requires
                -rx <= dx <= rx,
                -ry <= dy <= ry,
        ;
    }
}

/// Points of a small box keep every `i32` computation of the small path exact.
pub proof fn lemma_small_fits(a: Point, b: Point, c: Point, p: Point, x0: int, y0: int, x1: int, y1: int)
    requires
        in_box(a, x0, y0, x1, y1),
        in_box(b, x0, y0, x1, y1),
        in_box(c, x0, y0, x1, y1),
        in_box(p, x0, y0, x1, y1),
        x1 - x0 <= i32::MAX,
        y1 - y0 <= i32::MAX,
        small_path_spec(x1 - x0, y1 - y0),
    ensures
        small_area_fits(a, b, c),
        small_triangle_fits(a, b, c, p),
{
    let rx = x1 - x0;
    let ry = y1 - y0;
    lemma_small_product(c[0] - b[0], b[1] - a[1], rx, ry);
    lemma_small_product(b[0] - a[0], c[1] - b[1], rx, ry);
    lemma_small_product(c[0] - p[0], a[1] - p[1], rx, ry);
    lemma_small_product(a[0] - p[0], c[1] - p[1], rx, ry);
    lemma_small_product(a[0] - p[0], b[1] - p[1], rx, ry);
    lemma_small_product(b[0] - p[0], a[1] - p[1], rx, ry);
    lemma_small_product(b[0] - p[0], c[1] - p[1], rx, ry);
    lemma_small_product(c[0] - p[0], b[1] - p[1], rx, ry);
    assert((b[1] - a[1]) * (c[0] - b[0]) == (c[0] - b[0]) * (b[1] - a[1])) by (nonlinear_arith);
}

/// Exact small-polygon fast path for integer types that can prove narrow arithmetic is safe.
#[verifier::spinoff_prover]
pub fn is_ear_small(
    nodes: &Vec<Node>,
    ear_i: usize,
    Ghost(r): Ghost<Seq<usize>>,
    Ghost(bx): Ghost<(int, int, int, int)>,
) -> (res: (bool, usize, usize))
    requires
        is_ring(nodes@, r),
        r.len() >= 3,
        r[0] == ear_i,
        ring_coords_small(nodes@, r, bx.0, bx.1, bx.2, bx.3),
    ensures
        res.0 == is_ear_spec(nodes@, r),
        res.1 == r[r.len() - 1],
        res.2 == r[1],
{
    let ghost n = r.len() as int;
    proof {
        lemma_ring_basics(nodes@, r, 0);
        lemma_ring_basics(nodes@, r, 1);
        lemma_ring_basics(nodes@, r, n - 1);
    }
    let b = nodes[ear_i];
    let a_i = b.prev;
    let c_i = b.next;
    let a = nodes[a_i];
    let c = nodes[c_i];
    let a_xy = a.xy;
    let b_xy = b.xy;
    let c_xy = c.xy;
    proof {
        assert(nodes@[r[0] as int].xy == b_xy);
        assert(nodes@[r[1] as int].xy == c_xy);
        assert(nodes@[r[n - 1] as int].xy == a_xy);
        lemma_small_fits(a_xy, b_xy, c_xy, c_xy, bx.0, bx.1, bx.2, bx.3);
    }
    if small_area_non_negative(a_xy, b_xy, c_xy) {
        return (false, a_i, c_i);
    }
    let x0 = min_i32(a_xy[0], min_i32(b_xy[0], c_xy[0]));
    let y0 = min_i32(a_xy[1], min_i32(b_xy[1], c_xy[1]));
    let x1 = max_i32(a_xy[0], max_i32(b_xy[0], c_xy[0]));
    let y1 = max_i32(a_xy[1], max_i32(b_xy[1], c_xy[1]));
    proof {
        lemma_ring_basics(nodes@, r, 2);
    }
    let mut p_i = c.next;
    let mut p_prev_xy = c_xy;
    let ghost mut k: int = 2;
    while p_i != a_i
        invariant
            is_ring(nodes@, r),
            ring_coords_small(nodes@, r, bx.0, bx.1, bx.2, bx.3),
            n == r.len(),
            n >= 3,
            2 <= k <= n - 1,
            p_i == r[k],
            p_prev_xy == xy_of(nodes@, r[k - 1]),
            a_i == r[n - 1],
            a_xy == xy_of(nodes@, a_i),
            b_xy == xy_of(nodes@, r[0]),
            c_xy == xy_of(nodes@, r[1]),
            c_i == r[1],
            x0 == min3(a_xy[0] as int, b_xy[0] as int, c_xy[0] as int),
            y0 == min3(a_xy[1] as int, b_xy[1] as int, c_xy[1] as int),
            x1 == max3(a_xy[0] as int, b_xy[0] as int, c_xy[0] as int),
            y1 == max3(a_xy[1] as int, b_xy[1] as int, c_xy[1] as int),
            forall|j: int| 2 <= j < k ==> !#[trigger] ear_blocker(nodes@, r, j),
        decreases n - k,
    {
        proof {
            lemma_ring_basics(nodes@, r, k);
            lemma_ring_basics(nodes@, r, k - 1);
            if k == n - 1 {
                assert(r[k] == a_i);
            }
            lemma_ring_basics(nodes@, r, k + 1);
        }
        let p = nodes[p_i];
        let p_xy = p.xy;
        let p_next_i = p.next;
        let p_next_xy = nodes[p_next_i].xy;
        proof {
            assert(nodes@[r[k] as int].xy == p_xy);
            assert(nodes@[r[k - 1] as int].xy == p_prev_xy);
            assert(nodes@[r[crate::integer::nodes::succ(n, k)] as int].xy == p_next_xy);
            assert(nodes@[r[0] as int].xy == b_xy);
            assert(nodes@[r[1] as int].xy == c_xy);
            assert(nodes@[r[n - 1] as int].xy == a_xy);
            lemma_small_fits(p_prev_xy, p_xy, p_next_xy, p_xy, bx.0, bx.1, bx.2, bx.3);
            lemma_small_fits(a_xy, b_xy, c_xy, p_xy, bx.0, bx.1, bx.2, bx.3);
        }
        if (p_xy[0] >= x0 && p_xy[0] <= x1 && p_xy[1] >= y0 && p_xy[1] <= y1) && !(a_xy[0]
            == p_xy[0] && a_xy[1] == p_xy[1]) && small_area_non_negative(
            p_prev_xy,
            p_xy,
            p_next_xy,
        ) && small_point_in_triangle(a_xy, b_xy, c_xy, p_xy) {
            assert(ear_blocker(nodes@, r, k));
            return (false, a_i, c_i);
        }
        assert(!ear_blocker(nodes@, r, k));
        p_prev_xy = p_xy;
        p_i = p_next_i;
        proof {
            k = k + 1;
        }
    }
    proof {
        if k < n - 1 {
            assert(r[k] != r[n - 1]);
        }
    }
    (true, a_i, c_i)
}


/// Node `x` (reached through the z-order list) keeps the triangle `a b c`,
/// whose outer corners are the nodes `a_i` and `c_i`, from being an ear.
pub open spec fn z_blocker(
    nodes: Seq<Node>,
    x: usize,
    a_i: usize,
    c_i: usize,
    a: Point,
    b: Point,
    c: Point,
) -> bool {
    let p = xy_of(nodes, x);
    &&& in_box3(p, a, b, c)
    &&& x != a_i && x != c_i
    &&& in_triangle_except_first(a, b, c, p)
    &&& tri_area(xy_of(nodes, nodes[x as int].prev), p, xy_of(nodes, nodes[x as int].next)) >= 0
}

/// The corner of the bounding box of `a b c` with the least coordinates.
pub open spec fn box_min(a: Point, b: Point, c: Point) -> Point {
    [
        min3(a[0] as int, b[0] as int, c[0] as int) as i32,
        min3(a[1] as int, b[1] as int, c[1] as int) as i32,
    ]
}

/// The corner of the bounding box of `a b c` with the greatest coordinates.
pub open spec fn box_max(a: Point, b: Point, c: Point) -> Point {
    [
        max3(a[0] as int, b[0] as int, c[0] as int) as i32,
        max3(a[1] as int, b[1] as int, c[1] as int) as i32,
    ]
}

/// The ear test through the z-order list `zl`: the corner at `r[0]` is convex
/// and no node met walking the list from `r[0]` upwards while z stays at most
/// the z of the triangle's greatest box corner, nor downwards while z stays at
/// least that of its least corner, blocks it.
pub open spec fn hashed_ear_spec(
    nodes: Seq<Node>,
    r: Seq<usize>,
    zl: Seq<usize>,
    min_x: i32,
    min_y: i32,
    shift: u32,
) -> bool {
    let n = r.len() as int;
    let a_i = r[n - 1];
    let c_i = r[1];
    let a = xy_of(nodes, a_i);
    let b = xy_of(nodes, r[0]);
    let c = xy_of(nodes, c_i);
    let min_z = z_order_spec(box_min(a, b, c), min_x, min_y, shift);
    let max_z = z_order_spec(box_max(a, b, c), min_x, min_y, shift);
    let kz = zl.index_of(r[0]);
    &&& tri_area(a, b, c) < 0
    &&& zl.contains(r[0]) ==> forall|j: int|
        kz < j < zl.len() && (forall|i: int| kz < i <= j ==> nodes[zl[i] as int].z <= max_z)
            ==> !#[trigger] z_blocker(nodes, zl[j], a_i, c_i, a, b, c)
    &&& zl.contains(r[0]) ==> forall|j: int|
        0 <= j < kz && (forall|i: int| j <= i < kz ==> nodes[zl[i] as int].z >= min_z)
            ==> !#[trigger] z_blocker(nodes, zl[j], a_i, c_i, a, b, c)
}

#[verifier::spinoff_prover]
pub fn is_ear_hashed(
    nodes: &Vec<Node>,
    ear_i: usize,
    min_x: i32,
    min_y: i32,
    shift: u32,
    Ghost(r): Ghost<Seq<usize>>,
    Ghost(zl): Ghost<Seq<usize>>,
) -> (res: (bool, usize, usize))
    requires
        links_ok(nodes@),
        is_ring(nodes@, r),
        r.len() >= 3,
        r[0] == ear_i,
        z_ok(nodes@, zl),
        zl.contains(ear_i) || z_none(nodes@[ear_i as int]),
        shift < 64,
    ensures
        res.0 == hashed_ear_spec(nodes@, r, zl, min_x, min_y, shift),
        res.1 == r[r.len() - 1],
        res.2 == r[1],
{
    let ghost n = r.len() as int;
    proof {
        lemma_ring_basics(nodes@, r, 0);
        lemma_ring_basics(nodes@, r, 1);
        lemma_ring_basics(nodes@, r, n - 1);
    }
    let b = nodes[ear_i];
    let a_i = b.prev;
    let c_i = b.next;
    let a = nodes[a_i];
    let c = nodes[c_i];
    if area(a.xy, b.xy, c.xy) >= 0 {
        return (false, a_i, c_i);
    }
    let xy_min = [
        min_i32(a.xy[0], min_i32(b.xy[0], c.xy[0])),
        min_i32(a.xy[1], min_i32(b.xy[1], c.xy[1])),
    ];
    let xy_max = [
        max_i32(a.xy[0], max_i32(b.xy[0], c.xy[0])),
        max_i32(a.xy[1], max_i32(b.xy[1], c.xy[1])),
    ];
    assert(xy_min == box_min(a.xy, b.xy, c.xy));
    assert(xy_max == box_max(a.xy, b.xy, c.xy));
    let min_z = z_order(xy_min, min_x, min_y, shift);
    let max_z = z_order(xy_max, min_x, min_y, shift);
    let ghost inz = zl.contains(ear_i);
    let ghost kz = zl.index_of(ear_i);
    let ghost zn = zl.len() as int;
    proof {
        if inz {
            lemma_z_basics(nodes@, zl, kz);
        }
    }
    // look for points inside the triangle in increasing z-order
    let mut o_n = b.next_z;
    let ghost mut j: int = kz + 1;
    loop
        invariant
            links_ok(nodes@),
            z_ok(nodes@, zl),
            zn == zl.len(),
            is_ring(nodes@, r),
            n == r.len(),
            n >= 3,
            r[0] == ear_i,
            a_i == r[n - 1],
            c_i == r[1],
            a == nodes@[a_i as int],
            b == nodes@[ear_i as int],
            c == nodes@[c_i as int],
            xy_min == box_min(a.xy, b.xy, c.xy),
            xy_max == box_max(a.xy, b.xy, c.xy),
            max_z == z_order_spec(xy_max, min_x, min_y, shift),
            inz == zl.contains(ear_i),
            inz ==> 0 <= kz < zn && zl[kz] == ear_i,
            !inz ==> o_n is None,
            inz ==> kz < j <= zn,
            inz ==> o_n == (if j < zn {
                Some(zl[j])
            } else {
                None::<usize>
            }),
            inz ==> forall|i: int| kz < i < j ==> nodes@[zl[i] as int].z <= max_z,
            inz ==> forall|i: int|
                kz < i < j ==> !#[trigger] z_blocker(nodes@, zl[i], a_i, c_i, a.xy, b.xy, c.xy),
        ensures
            inz ==> forall|jj: int|
                kz < jj < zn && (forall|i: int| kz < i <= jj ==> nodes@[zl[i] as int].z <= max_z)
                    ==> !#[trigger] z_blocker(nodes@, zl[jj], a_i, c_i, a.xy, b.xy, c.xy),
        decreases zn - j,
    {
        match o_n {
            None => {
                break;
            },
            Some(n_i) => {
                proof {
                    lemma_z_basics(nodes@, zl, j);
                    assert(node_links_in(nodes@[n_i as int], nodes@.len() as int));
                }
                let nd = nodes[n_i];
                if nd.z > max_z {
                    break;
                }
                if ((nd.xy[0] >= xy_min[0]) && (nd.xy[0] <= xy_max[0]) && (nd.xy[1] >= xy_min[1])
                    && (nd.xy[1] <= xy_max[1])) && (n_i != a_i && n_i != c_i)
                    && point_in_triangle_except_first(a.xy, b.xy, c.xy, nd.xy) && area(
                    nodes[nd.prev].xy,
                    nd.xy,
                    nodes[nd.next].xy,
                ) >= 0 {
                    assert(z_blocker(nodes@, zl[j], a_i, c_i, a.xy, b.xy, c.xy));
                    assert(forall|i: int| kz < i <= j ==> nodes@[zl[i] as int].z <= max_z);
                    return (false, a_i, c_i);
                }
                o_n = nd.next_z;
                proof {
                    j = j + 1;
                }
            },
        }
    }
    // look for points inside the triangle in decreasing z-order
    let mut o_p = b.prev_z;
    let ghost mut j: int = kz - 1;
    loop
        invariant
            links_ok(nodes@),
            z_ok(nodes@, zl),
            zn == zl.len(),
            is_ring(nodes@, r),
            n == r.len(),
            n >= 3,
            r[0] == ear_i,
            a_i == r[n - 1],
            c_i == r[1],
            a == nodes@[a_i as int],
            b == nodes@[ear_i as int],
            c == nodes@[c_i as int],
            xy_min == box_min(a.xy, b.xy, c.xy),
            xy_max == box_max(a.xy, b.xy, c.xy),
            min_z == z_order_spec(xy_min, min_x, min_y, shift),
            inz == zl.contains(ear_i),
            inz ==> 0 <= kz < zn && zl[kz] == ear_i,
            !inz ==> o_p is None,
            inz ==> -1 <= j < kz,
            inz ==> o_p == (if j >= 0 {
                Some(zl[j])
            } else {
                None::<usize>
            }),
            inz ==> forall|i: int| j < i < kz ==> nodes@[zl[i] as int].z >= min_z,
            inz ==> forall|i: int|
                j < i < kz ==> !#[trigger] z_blocker(nodes@, zl[i], a_i, c_i, a.xy, b.xy, c.xy),
        ensures
            inz ==> forall|jj: int|
                0 <= jj < kz && (forall|i: int| jj <= i < kz ==> nodes@[zl[i] as int].z >= min_z)
                    ==> !#[trigger] z_blocker(nodes@, zl[jj], a_i, c_i, a.xy, b.xy, c.xy),
        decreases j + 1,
    {
        match o_p {
            None => {
                break;
            },
            Some(p_i) => {
                proof {
                    lemma_z_basics(nodes@, zl, j);
                    assert(node_links_in(nodes@[p_i as int], nodes@.len() as int));
                }
                let pd = nodes[p_i];
                if pd.z < min_z {
                    break;
                }
                if ((pd.xy[0] >= xy_min[0]) && (pd.xy[0] <= xy_max[0]) && (pd.xy[1] >= xy_min[1])
                    && (pd.xy[1] <= xy_max[1])) && (p_i != a_i && p_i != c_i)
                    && point_in_triangle_except_first(a.xy, b.xy, c.xy, pd.xy) && area(
                    nodes[pd.prev].xy,
                    pd.xy,
                    nodes[pd.next].xy,
                ) >= 0 {
                    assert(z_blocker(nodes@, zl[j], a_i, c_i, a.xy, b.xy, c.xy));
                    assert(forall|i: int| j <= i < kz ==> nodes@[zl[i] as int].z >= min_z);
                    return (false, a_i, c_i);
                }
                o_p = pd.prev_z;
                proof {
                    j = j - 1;
                }
            },
        }
    }
    (true, a_i, c_i)
}

/// The z values of ring `r`'s nodes are the Morton codes of their points, and
/// every point lies in the 15-bit grid that `min_x`, `min_y` and `shift` set.
pub open spec fn z_exact(nodes: Seq<Node>, r: Seq<usize>, min_x: i32, min_y: i32, shift: u32) -> bool {
    forall|k: int|
        0 <= k < r.len() ==> {
            let p = #[trigger] nodes[r[k] as int];
            &&& p.z == z_order_spec(p.xy, min_x, min_y, shift)
            &&& in_grid(p.xy[0], min_x, shift)
            &&& in_grid(p.xy[1], min_y, shift)
        }
}

/// `zl` lists exactly the nodes of ring `r`, in non-decreasing z.
pub open spec fn z_sorted_ring(nodes: Seq<Node>, zl: Seq<usize>, r: Seq<usize>) -> bool {
    &&& forall|x: usize| zl.contains(x) <==> r.contains(x)
    &&& forall|i: int, j: int|
        0 <= i <= j < zl.len() ==> nodes[zl[i] as int].z <= nodes[zl[j] as int].z
}

/// The bounding box of three grid points has its corners in the grid.
proof fn lemma_box_in_grid(a: Point, b: Point, c: Point, min_x: i32, min_y: i32, shift: u32)
    requires
        in_grid(a[0], min_x, shift),
        in_grid(a[1], min_y, shift),
        in_grid(b[0], min_x, shift),
        in_grid(b[1], min_y, shift),
        in_grid(c[0], min_x, shift),
        in_grid(c[1], min_y, shift),
    ensures
        min_x <= box_min(a, b, c)[0],
        min_y <= box_min(a, b, c)[1],
        in_grid(box_max(a, b, c)[0], min_x, shift),
        in_grid(box_max(a, b, c)[1], min_y, shift),
        box_min(a, b, c)[0] == min3(a[0] as int, b[0] as int, c[0] as int),
        box_min(a, b, c)[1] == min3(a[1] as int, b[1] as int, c[1] as int),
        box_max(a, b, c)[0] == max3(a[0] as int, b[0] as int, c[0] as int),
        box_max(a, b, c)[1] == max3(a[1] as int, b[1] as int, c[1] as int),
{
    let mx = max3(a[0] as int, b[0] as int, c[0] as int);
    let my = max3(a[1] as int, b[1] as int, c[1] as int);
    assert(mx == a[0] || mx == b[0] || mx == c[0]);
    assert(my == a[1] || my == b[1] || my == c[1]);
}

/// The z-order search for blockers finds every blocker that the full search
/// finds: when the z-order list holds exactly the ring, in z order, and the z
/// values are the Morton codes of points within the grid, the two ear tests
/// decide alike.
#[verifier::spinoff_prover]
pub proof fn lemma_hashed_ear_exact(
    nodes: Seq<Node>,
    r: Seq<usize>,
    zl: Seq<usize>,
    min_x: i32,
    min_y: i32,
    shift: u32,
)
    requires
        is_ring(nodes, r),
        r.len() >= 3,
        z_ok(nodes, zl),
        z_sorted_ring(nodes, zl, r),
        z_exact(nodes, r, min_x, min_y, shift),
        shift < 64,
    ensures
        hashed_ear_spec(nodes, r, zl, min_x, min_y, shift) == is_ear_spec(nodes, r),
{
    let n = r.len() as int;
    let a_i = r[n - 1];
    let c_i = r[1];
    let a = xy_of(nodes, a_i);
    let b = xy_of(nodes, r[0]);
    let c = xy_of(nodes, c_i);
    let bmin = box_min(a, b, c);
    let bmax = box_max(a, b, c);
    let min_z = z_order_spec(bmin, min_x, min_y, shift);
    let max_z = z_order_spec(bmax, min_x, min_y, shift);
    assert(r.contains(r[0]));
    assert(zl.contains(r[0]));
    let kz = zl.index_of(r[0]);
    let pa = nodes[r[n - 1] as int];
    let pb = nodes[r[0] as int];
    let pc = nodes[r[1] as int];
    lemma_box_in_grid(a, b, c, min_x, min_y, shift);
    lemma_ring_basics(nodes, r, 0);
    if is_ear_spec(nodes, r) {
        assert forall|j: int| 0 <= j < zl.len() && j != kz implies !#[trigger] z_blocker(
            nodes,
            zl[j],
            a_i,
            c_i,
            a,
            b,
            c,
        ) by {
            let x = zl[j];
            assert(zl.contains(x));
            assert(r.contains(x));
            let k = choose|k: int| 0 <= k < n && r[k] == x;
            if z_blocker(nodes, x, a_i, c_i, a, b, c) {
                assert(x != r[0]);
                assert(k != 0 && k != 1 && k != n - 1);
                lemma_ring_basics(nodes, r, k);
                assert(ear_blocker(nodes, r, k));
            }
        }
    }
    if hashed_ear_spec(nodes, r, zl, min_x, min_y, shift) {
        assert forall|k: int| 2 <= k < n - 1 implies !#[trigger] ear_blocker(nodes, r, k) by {
            if ear_blocker(nodes, r, k) {
                let x = r[k];
                let p = nodes[x as int];
                assert(r.contains(x));
                assert(zl.contains(x));
                let j = zl.index_of(x);
                lemma_ring_basics(nodes, r, k);
                assert(x != r[0]);
                assert(j != kz);
                lemma_z_order_mono(bmin, p.xy, min_x, min_y, shift);
                lemma_z_order_mono(p.xy, bmax, min_x, min_y, shift);
                assert(min_z <= p.z <= max_z);
                assert(z_blocker(nodes, zl[j], a_i, c_i, a, b, c));
                if j > kz {
                    assert forall|i: int| kz < i <= j implies nodes[zl[i] as int].z <= max_z by {
                        assert(nodes[zl[i] as int].z <= nodes[zl[j] as int].z);
                    }
                } else {
                    assert forall|i: int| j <= i < kz implies nodes[zl[i] as int].z >= min_z by {
                        assert(nodes[zl[j] as int].z <= nodes[zl[i] as int].z);
                    }
                }
            }
        }
    }
}

} // verus!
