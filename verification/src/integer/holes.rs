//! Bridging holes into the outer ring (David Eberly's method).
use vstd::arithmetic::div_mod::{lemma_div_by_multiple, lemma_div_is_ordered};
use vstd::prelude::*;

use crate::integer::geom::{
    diff_product, equals, in_triangle, lemma_mul_bounded, max_int, min_int, point_in_triangle,
    same_point, Point,
};
use crate::integer::clip::{
    keeps_outside, lemma_keeps_arena, lemma_keeps_refl, lemma_keeps_trans, lemma_relink_keeps,
    lemma_split_arena,
};
use crate::integer::filter::{filter_points, same_payload};
use crate::integer::nodes::{
    arena_ok, is_ring, lemma_ring_basics, lemma_ring_merge, lemma_rotate, links_ok, merged_ring,
    node_links_in, rotate, split_effect, split_polygon, succ, z_covers, z_none, Node,
};
use crate::integer::polygon::{locally_inside, locally_inside_at, sector_contains_sector, xy_of};

verus! {

/// `n / d` rounded toward zero (for `d > 0`), as Rust's integer division rounds.
pub open spec fn div_trunc(n: int, d: int) -> int {
    if n >= 0 {
        n / d
    } else {
        -((-n) / d)
    }
}

/// The x at which the edge from `p` down to `pn` meets the horizontal line
/// through `h`, rounded toward `p[0]`.
pub open spec fn ray_x(p: Point, pn: Point, h: Point) -> int {
    p[0] + div_trunc((p[1] - h[1]) * (pn[0] - p[0]), p[1] - pn[1])
}

/// The edge from `p` down to `pn` (not horizontal) meets the ray that goes
/// left from `h`.
pub open spec fn edge_meets_ray(p: Point, pn: Point, h: Point) -> bool {
    &&& h[1] <= p[1]
    &&& h[1] >= pn[1]
    &&& pn[1] != p[1]
    &&& ray_x(p, pn, h) <= h[0]
}

/// Vertex `r[k]` lies at `h`, or the edge leaving it meets the ray going left from `h`.
pub open spec fn hit_at(nodes: Seq<Node>, r: Seq<usize>, k: int, h: Point) -> bool {
    same_point(xy_of(nodes, r[k]), h) || edge_meets_ray(
        xy_of(nodes, r[k]),
        xy_of(nodes, r[succ(r.len() as int, k)]),
        h,
    )
}

/// Ring `r` has a vertex at `h`, or an edge that meets the ray going left from `h`.
pub open spec fn ray_hits_ring(nodes: Seq<Node>, r: Seq<usize>, h: Point) -> bool {
    exists|k: int| 0 <= k < r.len() && #[trigger] hit_at(nodes, r, k, h)
}

/// `(t * c) / d` lies in `0..=c` when `0 <= t <= d`.
proof fn lemma_quotient_bound(t: int, c: int, d: int)
    requires
        0 <= t <= d,
        0 < d,
        0 <= c,
    ensures
        0 <= t * c,
        0 <= (t * c) / d <= c,
{
    assert(0 <= t * c <= c * d) by (nonlinear_arith)
        requires
            0 <= t <= d,
            0 <= c,
    ;
    lemma_div_is_ordered(t * c, c * d, d);
    lemma_div_by_multiple(c, d);
    lemma_div_is_ordered(0, t * c, d);
}

/// Where the edge from `p` down to `pn` meets the horizontal line through
/// `h`, rounded toward `p[0]`; it lies between the x of the two ends.
fn ray_cross_x(p: Point, pn: Point, h: Point) -> (x: i128)
    requires
        h[1] <= p[1],
        h[1] >= pn[1],
        pn[1] != p[1],
    ensures
        x == ray_x(p, pn, h),
        min_int(p[0] as int, pn[0] as int) <= x <= max_int(p[0] as int, pn[0] as int),
{
    let off = diff_product(p[1], h[1], pn[0], p[0]);
    let d = p[1] as i128 - pn[1] as i128;
    let ghost t = p[1] - h[1];
    let ghost dx = pn[0] - p[0];
    proof {
        if dx >= 0 {
            lemma_quotient_bound(t, dx, d as int);
        } else {
            lemma_quotient_bound(t, -dx, d as int);
            assert(t * (-dx) == -(t * dx)) by (nonlinear_arith);
        }
    }
    let q: i128 = if off >= 0 {
        ((off as u128) / (d as u128)) as i128
    } else {
        -((((-off) as u128) / (d as u128)) as i128)
    };
    p[0] as i128 + q
}

/// `a * b` for factors of at most `2^33` in size.
fn small_mul(a: i128, b: i128) -> (r: i128)
    requires
        -0x2_0000_0000 <= a <= 0x2_0000_0000,
        -0x2_0000_0000 <= b <= 0x2_0000_0000,
    ensures
        r == a * b,
{
    proof {
        lemma_mul_bounded(a as int, b as int, 0x2_0000_0000);
    }
    a * b
}

/// David Eberly's algorithm for finding a bridge between hole and outer polygon
///
/// Looks for a vertex of ring `r` to connect the hole point `hole_i` to: none
/// when no vertex of the ring lies at the hole point and no edge meets the
/// ray that goes left from it; otherwise a vertex of the ring that is not to
/// the right of the hole point (the ring's first vertex when that lies at the
/// hole point).
#[verifier::rlimit(80)]
#[verifier::spinoff_prover]
pub fn find_hole_bridge(
    nodes: &Vec<Node>,
    hole_i: usize,
    outer_node_i: usize,
    Ghost(r): Ghost<Seq<usize>>,
) -> (res: Option<usize>)
    requires
        links_ok(nodes@),
        is_ring(nodes@, r),
        r[0] == outer_node_i,
        hole_i < nodes@.len(),
    ensures
        res is None <==> !ray_hits_ring(nodes@, r, xy_of(nodes@, hole_i)),
        res matches Some(m) ==> r.contains(m) && xy_of(nodes@, m)[0] <= xy_of(nodes@, hole_i)[0],
        same_point(xy_of(nodes@, r[0]), xy_of(nodes@, hole_i)) ==> res == Some(outer_node_i),
        res matches Some(m) ==> same_point(xy_of(nodes@, m), xy_of(nodes@, hole_i)) || (exists|
            k: int,
        |
            #[trigger] on_hit_edge(nodes@, r, xy_of(nodes@, hole_i), k, m) && best_edge(
                nodes@,
                r,
                xy_of(nodes@, hole_i),
                k,
                k + 1,
            )) || (exists|k: int|
            #[trigger] best_edge(nodes@, r, xy_of(nodes@, hole_i), k, r.len() as int)
                && min_angle_choice(
                nodes@,
                r,
                hole_i,
                edge_left(nodes@, r, k),
                edge_x(nodes@, r, k, xy_of(nodes@, hole_i)) as i32,
                m,
            )),
{
    let ghost n = r.len() as int;
    let ghost h = xy_of(nodes@, hole_i);
    let hole = nodes[hole_i];
    let hx = hole.xy[0];
    let hy = hole.xy[1];
    proof {
        lemma_ring_basics(nodes@, r, 0);
    }
    let mut p_i = outer_node_i;
    if equals(hole.xy, nodes[p_i].xy) {
        proof {
            assert(hit_at(nodes@, r, 0, h));
        }
        return Some(p_i);
    }
    let mut qx: i128 = -0x1_0000_0000;
    let mut m_found: Option<usize> = None;
    let ghost mut k: int = 0;
    let ghost mut kb: int = 0;
    loop
        invariant_except_break
            0 <= k < n,
            p_i == r[k],
        invariant
            is_ring(nodes@, r),
            links_ok(nodes@),
            n == r.len(),
            r[0] == outer_node_i,
            hole_i < nodes@.len(),
            h == xy_of(nodes@, hole_i),
            hole.xy == h,
            hx == h[0],
            hy == h[1],
            0 <= k <= n,
            forall|j: int| 0 <= j <= k && j < n ==> !same_point(#[trigger] xy_of(nodes@, r[j]), h),
            m_found is None <==> forall|j: int| 0 <= j < k ==> !#[trigger] hit_at(nodes@, r, j, h),
            m_found is None ==> qx == -0x1_0000_0000,
            m_found matches Some(m) ==> r.contains(m) && xy_of(nodes@, m)[0] <= hx && i32::MIN <= qx
                <= hx,
            m_found matches Some(m) ==> best_edge(nodes@, r, h, kb, k) && qx == edge_x(
                nodes@,
                r,
                kb,
                h,
            ) && m == edge_left(nodes@, r, kb),
            forall|j: int| 0 <= j < k && #[trigger] meets(nodes@, r, j, h) ==> edge_x(nodes@, r, j, h) <= qx,
        ensures
            k == n,
        decreases n - k,
    {
        proof {
            lemma_ring_basics(nodes@, r, k);
        }
        let p = nodes[p_i];
        let pn_i = p.next;
        let pn = nodes[pn_i];
        if equals(hole.xy, pn.xy) {
            proof {
                assert(r.contains(r[succ(n, k)]));
                assert(hit_at(nodes@, r, succ(n, k), h));
            }
            return Some(pn_i);
        }
        proof {
            assert(!same_point(xy_of(nodes@, r[succ(n, k)]), h));
        }
        if hy <= p.xy[1] && hy >= pn.xy[1] && pn.xy[1] != p.xy[1] {
            let x = ray_cross_x(p.xy, pn.xy, hole.xy);
            if x <= hx as i128 && x > qx {
                qx = x;
                let m = if p.xy[0] < pn.xy[0] {
                    p_i
                } else {
                    pn_i
                };
                m_found = Some(m);
                proof {
                    assert(r.contains(r[k]));
                    assert(r.contains(r[succ(n, k)]));
                    assert(hit_at(nodes@, r, k, h));
                    assert(meets(nodes@, r, k, h));
                    kb = k;
                    assert(best_edge(nodes@, r, h, kb, k + 1));
                }
                let lhs = diff_product(hy, p.xy[1], pn.xy[0], p.xy[0]);
                let rhs = diff_product(hx, p.xy[0], pn.xy[1], p.xy[1]);
                if lhs == rhs {
                    proof {
                        assert(on_hit_edge(nodes@, r, h, k, m));
                        assert(best_edge(nodes@, r, h, k, k + 1));
                    }
                    return m_found;
                }
            } else {
                proof {
                    if m_found is None {
                        assert(!hit_at(nodes@, r, k, h));
                    }
                }
            }
        } else {
            proof {
                assert(!hit_at(nodes@, r, k, h));
            }
        }
        proof {
            if m_found is None {
                assert forall|j: int| 0 <= j < k + 1 implies !#[trigger] hit_at(nodes@, r, j, h) by {
                    if j < k {
                    }
                }
            } else {
                if forall|j: int| 0 <= j < k + 1 ==> !#[trigger] hit_at(nodes@, r, j, h) {
                    assert(!hit_at(nodes@, r, k, h));
                }
            }
        }
        p_i = pn_i;
        proof {
            k = k + 1;
        }
        if p_i == outer_node_i {
            proof {
                if k < n {
                    assert(r[k] != r[0]);
                }
            }
            break;
        }
    }
    let mut m_i = match m_found {
        Some(m) => m,
        None => {
            proof {
                assert forall|j: int| 0 <= j < n implies !#[trigger] hit_at(nodes@, r, j, h) by {}
            }
            return None;
        },
    };
    let res = find_min_angle(nodes, hole_i, m_i, qx as i32, Ghost(r));
    proof {
        assert(min_angle_choice(nodes@, r, hole_i, m_i, qx as i32, res.unwrap()));
        assert(best_edge(nodes@, r, h, kb, n));
    }
    res
}

/// The corners, other than the candidate, of the triangle that `find_min_angle`
/// searches: the hole point `h` and the ray's hit `(qx, h[1])`, in the order
/// that keeps the triangle's winding.
pub open spec fn bridge_corners(h: Point, m: Point, qx: i32) -> (Point, Point) {
    if h[1] < m[1] {
        ([h[0], h[1]], [qx, h[1]])
    } else {
        ([qx, h[1]], [h[0], h[1]])
    }
}

/// Vertex `p` may replace the candidate at `m` as the bridge's end: it lies
/// left of the hole point, not left of `m`, inside the search triangle, and
/// a diagonal from it towards the hole point leaves it into the polygon.
pub open spec fn bridge_candidate(nodes: Seq<Node>, hole_i: usize, m: Point, qx: i32, p: usize) -> bool {
    let h = xy_of(nodes, hole_i);
    let c = bridge_corners(h, m, qx);
    &&& xy_of(nodes, p)[0] < h[0]
    &&& xy_of(nodes, p)[0] >= m[0]
    &&& in_triangle(c.0, m, c.1, xy_of(nodes, p))
    &&& locally_inside_at(nodes, p, hole_i)
}

/// How vertex `p` is seen from the hole point: the rise `|dy|` and the run
/// `dx` of the line between them, whose ratio is the tangent of its angle to
/// the ray.
pub open spec fn ray_slope(nodes: Seq<Node>, hole_i: usize, p: usize) -> (int, int) {
    let h = xy_of(nodes, hole_i);
    let q = xy_of(nodes, p);
    let dy = h[1] - q[1];
    (if dy < 0 {
        -dy
    } else {
        dy
    }, h[0] - q[0])
}

/// Vertex `p` is seen from the hole point at a smaller angle to the ray than
/// vertex `m`.
pub open spec fn angle_less(nodes: Seq<Node>, hole_i: usize, p: usize, m: usize) -> bool {
    let sp = ray_slope(nodes, hole_i, p);
    let sm = ray_slope(nodes, hole_i, m);
    sp.0 * sm.1 < sm.0 * sp.1
}

/// Vertices `p` and `m` are seen from the hole point at the same angle.
pub open spec fn angle_same(nodes: Seq<Node>, hole_i: usize, p: usize, m: usize) -> bool {
    let sp = ray_slope(nodes, hole_i, p);
    let sm = ray_slope(nodes, hole_i, m);
    sp.0 * sm.1 == sm.0 * sp.1
}

/// `m` is what the angle search from candidate `c` (with the ray's hit at
/// `qx`) picks on ring `r`: `c` itself when no vertex of `r` may replace it,
/// else a vertex that may, seen from the hole point at the least angle to
/// the ray, and among those at that angle one furthest right.
pub open spec fn min_angle_choice(
    nodes: Seq<Node>,
    r: Seq<usize>,
    hole_i: usize,
    c: usize,
    qx: i32,
    m: usize,
) -> bool {
    let mc = xy_of(nodes, c);
    &&& r.contains(c)
    &&& mc[0] <= xy_of(nodes, hole_i)[0]
    &&& m == c || bridge_candidate(nodes, hole_i, mc, qx, m)
    &&& (forall|p: usize| r.contains(p) ==> !#[trigger] bridge_candidate(nodes, hole_i, mc, qx, p))
        ==> m == c
    &&& forall|p: usize|
        r.contains(p) && #[trigger] bridge_candidate(nodes, hole_i, mc, qx, p) ==> {
            &&& bridge_candidate(nodes, hole_i, mc, qx, m)
            &&& !angle_less(nodes, hole_i, p, m)
            &&& angle_same(nodes, hole_i, p, m) ==> xy_of(nodes, p)[0] <= xy_of(nodes, m)[0]
        }
}

/// The edge from `r[k]` to the next node meets the ray going left from `h`.
pub open spec fn meets(nodes: Seq<Node>, r: Seq<usize>, k: int, h: Point) -> bool {
    edge_meets_ray(xy_of(nodes, r[k]), xy_of(nodes, r[succ(r.len() as int, k)]), h)
}

/// Where the edge from `r[k]` to the next node crosses the line of the ray.
pub open spec fn edge_x(nodes: Seq<Node>, r: Seq<usize>, k: int, h: Point) -> int {
    ray_x(xy_of(nodes, r[k]), xy_of(nodes, r[succ(r.len() as int, k)]), h)
}

/// The end of the edge from `r[k]` further left (the next node on a tie).
pub open spec fn edge_left(nodes: Seq<Node>, r: Seq<usize>, k: int) -> usize {
    let pn = r[succ(r.len() as int, k)];
    if xy_of(nodes, r[k])[0] < xy_of(nodes, pn)[0] {
        r[k]
    } else {
        pn
    }
}

/// Among the edges leaving `r[0..upto]` that meet the ray going left from
/// `h`, edge `k` meets it furthest right, and is the first to do so.
pub open spec fn best_edge(nodes: Seq<Node>, r: Seq<usize>, h: Point, k: int, upto: int) -> bool {
    &&& 0 <= k < upto
    &&& meets(nodes, r, k, h)
    &&& forall|j: int|
        0 <= j < k && #[trigger] meets(nodes, r, j, h) ==> edge_x(nodes, r, j, h) < edge_x(
            nodes,
            r,
            k,
            h,
        )
    &&& forall|j: int|
        k < j < upto && #[trigger] meets(nodes, r, j, h) ==> edge_x(nodes, r, j, h) <= edge_x(
            nodes,
            r,
            k,
            h,
        )
}

/// The hole point `h` lies on the line of the edge from `r[k]` to the next
/// node, an edge that meets the ray going left from `h`, and `m` is the end
/// of that edge further left.
pub open spec fn on_hit_edge(nodes: Seq<Node>, r: Seq<usize>, h: Point, k: int, m: usize) -> bool {
    let p = xy_of(nodes, r[k]);
    let pn = xy_of(nodes, r[succ(r.len() as int, k)]);
    &&& 0 <= k < r.len()
    &&& edge_meets_ray(p, pn, h)
    &&& (h[1] - p[1]) * (pn[0] - p[0]) == (h[0] - p[0]) * (pn[1] - p[1])
    &&& m == (if p[0] < pn[0] {
        r[k]
    } else {
        r[succ(r.len() as int, k)]
    })
}

/// Comparing slopes by cross-multiplying, with positive runs, is transitive.
proof fn lemma_slope_order(aj: int, dj: int, ao: int, d_o: int, ap: int, dp: int)
    requires
        dj > 0,
        d_o > 0,
        dp > 0,
        aj >= 0,
        ao >= 0,
        ap >= 0,
        aj * d_o >= ao * dj,
        ap * d_o <= ao * dp,
    ensures
        aj * dp >= ap * dj,
        ap * d_o < ao * dp ==> aj * dp > ap * dj,
        aj * dp == ap * dj ==> aj * d_o == ao * dj,
{
    assert(aj * d_o * dp >= ao * dj * dp) by (nonlinear_arith)
        requires
            aj * d_o >= ao * dj,
            dp > 0,
    ;
    assert(ap * d_o * dj <= ao * dp * dj) by (nonlinear_arith)
        requires
            ap * d_o <= ao * dp,
            dj > 0,
    ;
    assert(ao * dj * dp == ao * dp * dj) by (nonlinear_arith);
    assert(aj * dp >= ap * dj) by (nonlinear_arith)
        requires
            aj * d_o * dp >= ap * d_o * dj,
            d_o > 0,
    ;
    if ap * d_o < ao * dp {
        assert(ap * d_o * dj < ao * dp * dj) by (nonlinear_arith)
            requires
                ap * d_o < ao * dp,
                dj > 0,
        ;
        assert(aj * dp > ap * dj) by (nonlinear_arith)
            requires
                aj * d_o * dp > ap * d_o * dj,
                d_o > 0,
        ;
    }
    if aj * dp == ap * dj {
        assert(aj * d_o * dp == ap * d_o * dj) by (nonlinear_arith)
            requires
                aj * dp == ap * dj,
        ;
        assert(aj * d_o == ao * dj) by (nonlinear_arith)
            requires
                aj * d_o * dp == ao * dj * dp,
                dp > 0,
        ;
    }
}

/// Among the vertices of ring `r` inside the triangle of the hole point, the
/// ray's hit `(qx, hole y)` and the candidate `m_i`, picks the one seen from
/// the hole point at the least angle to the ray (the candidate itself when
/// there is none).
#[verifier::rlimit(80)]
#[verifier::spinoff_prover]
fn find_min_angle(
    nodes: &Vec<Node>,
    hole_i: usize,
    cand_i: usize,
    qx: i32,
    Ghost(r): Ghost<Seq<usize>>,
) -> (res: Option<usize>)
    requires
        links_ok(nodes@),
        is_ring(nodes@, r),
        r.contains(cand_i),
        hole_i < nodes@.len(),
        xy_of(nodes@, cand_i)[0] <= xy_of(nodes@, hole_i)[0],
    ensures
        res matches Some(m) && r.contains(m) && xy_of(nodes@, m)[0] <= xy_of(nodes@, hole_i)[0],
        res == Some(cand_i) || (res matches Some(p) && bridge_candidate(
            nodes@,
            hole_i,
            xy_of(nodes@, cand_i),
            qx,
            p,
        )),
        (forall|p: usize|
            r.contains(p) ==> !#[trigger] bridge_candidate(nodes@, hole_i, xy_of(nodes@, cand_i), qx, p))
            ==> res == Some(cand_i),
        res matches Some(m) ==> forall|p: usize|
            r.contains(p) && #[trigger] bridge_candidate(nodes@, hole_i, xy_of(nodes@, cand_i), qx, p)
                ==> {
                &&& bridge_candidate(nodes@, hole_i, xy_of(nodes@, cand_i), qx, m)
                &&& !angle_less(nodes@, hole_i, p, m)
                &&& angle_same(nodes@, hole_i, p, m) ==> xy_of(nodes@, p)[0] <= xy_of(nodes@, m)[0]
            },
{
    let ghost n = r.len() as int;
    let ghost km = r.index_of(cand_i);
    let ghost ra = rotate(r, km);
    proof {
        lemma_rotate(nodes@, r, km);
    }
    let hole = nodes[hole_i];
    let hx = hole.xy[0];
    let hy = hole.xy[1];
    let stop_i = cand_i;
    let mut m_i = cand_i;
    let mut m = nodes[m_i];
    let mxmy = m.xy;
    let mut tan_min_abs_dy: i128 = 1;
    let mut tan_min_dx: i128 = 0;
    let (tri_a, tri_c) = if hy < mxmy[1] {
        ([hx, hy], [qx, hy])
    } else {
        ([qx, hy], [hx, hy])
    };
    let mut p_i = stop_i;
    let ghost mut k: int = 0;
    let ghost mut won = false;
    let ghost m0 = mxmy;
    proof {
        assert forall|x: usize| r.contains(x) implies ra.contains(x) by {
            assert(r.to_set().contains(x));
        }
    }
    loop
        invariant
            forall|x: usize| r.contains(x) ==> ra.contains(x),
            m0 == xy_of(nodes@, cand_i),
            won ==> bridge_candidate(nodes@, hole_i, m0, qx, m_i) && (tan_min_abs_dy as int,
            tan_min_dx as int) == ray_slope(nodes@, hole_i, m_i),
            !won ==> m_i == cand_i && tan_min_abs_dy == 1 && tan_min_dx == 0,
            forall|j: int|
                0 <= j < k && #[trigger] bridge_candidate(nodes@, hole_i, m0, qx, ra[j]) ==> {
                    &&& won
                    &&& !angle_less(nodes@, hole_i, ra[j], m_i)
                    &&& angle_same(nodes@, hole_i, ra[j], m_i) ==> xy_of(nodes@, ra[j])[0]
                        <= xy_of(nodes@, m_i)[0]
                },
            is_ring(nodes@, ra),
            is_ring(nodes@, r),
            links_ok(nodes@),
            n == ra.len(),
            ra[0] == stop_i,
            stop_i == cand_i,
            hole_i < nodes@.len(),
            hole == nodes@[hole_i as int],
            hx == hole.xy[0],
            hy == hole.xy[1],
            0 <= k < n,
            p_i == ra[k],
            forall|x: usize| ra.contains(x) ==> r.contains(x),
            r.contains(m_i),
            m == nodes@[m_i as int],
            m.xy[0] <= hx,
            mxmy == xy_of(nodes@, stop_i),
            (tri_a, tri_c) == bridge_corners(hole.xy, mxmy, qx),
            m_i == stop_i || bridge_candidate(nodes@, hole_i, mxmy, qx, m_i),
            0 <= tan_min_abs_dy <= 0x1_0000_0000,
            0 <= tan_min_dx <= 0x1_0000_0000,
        decreases n - k,
    {
        proof {
            lemma_ring_basics(nodes@, ra, k);
            assert(ra.contains(ra[k]));
        }
        let p = nodes[p_i];
        if hx >= p.xy[0] && p.xy[0] >= mxmy[0] && hx != p.xy[0] && point_in_triangle(
            tri_a,
            mxmy,
            tri_c,
            p.xy,
        ) {
            let dy = hy as i128 - p.xy[1] as i128;
            let abs_dy = if dy < 0 {
                -dy
            } else {
                dy
            };
            let dx = hx as i128 - p.xy[0] as i128;
            let lhs = small_mul(abs_dy, tan_min_dx);
            let rhs = small_mul(tan_min_abs_dy, dx);
            let ghost old_m = m_i;
            if locally_inside(nodes, p_i, hole_i) && (lhs < rhs || (lhs == rhs && (p.xy[0]
                > m.xy[0] || (p.xy[0] == m.xy[0] && sector_contains_sector(nodes, m_i, p_i))))) {
                proof {
                    assert(bridge_candidate(nodes@, hole_i, m0, qx, p_i));
                    let sp = ray_slope(nodes@, hole_i, p_i);
                    assert forall|j: int|
                        0 <= j < k + 1 && #[trigger] bridge_candidate(nodes@, hole_i, m0, qx, ra[j])
                            implies !angle_less(nodes@, hole_i, ra[j], p_i) && (angle_same(
                        nodes@,
                        hole_i,
                        ra[j],
                        p_i,
                    ) ==> xy_of(nodes@, ra[j])[0] <= xy_of(nodes@, p_i)[0]) by {
                        if j < k {
                            let sj = ray_slope(nodes@, hole_i, ra[j]);
                            let so = ray_slope(nodes@, hole_i, old_m);
                            lemma_slope_order(sj.0, sj.1, so.0, so.1, sp.0, sp.1);
                        }
                    }
                    won = true;
                }
                m_i = p_i;
                m = p;
                tan_min_abs_dy = abs_dy;
                tan_min_dx = dx;
            } else {
                proof {
                    if bridge_candidate(nodes@, hole_i, m0, qx, p_i) {
                        assert(won);
                    }
                }
            }
        }
        p_i = p.next;
        if p_i == stop_i {
            proof {
                assert(k == n - 1) by {
                    if k + 1 < n {
                        assert(ra[k + 1] == ra[0]);
                    }
                }
                assert forall|x: usize|
                    r.contains(x) && #[trigger] bridge_candidate(nodes@, hole_i, m0, qx, x)
                        implies !angle_less(nodes@, hole_i, x, m_i) && (angle_same(
                    nodes@,
                    hole_i,
                    x,
                    m_i,
                ) ==> xy_of(nodes@, x)[0] <= xy_of(nodes@, m_i)[0]) by {
                    assert(ra.contains(x));
                    let j = ra.index_of(x);
                    assert(bridge_candidate(nodes@, hole_i, m0, qx, ra[j]));
                }
            }
            return Some(m_i);
        }
        proof {
            if k + 1 == n {
                assert(ra[0] == stop_i);
            }
            k = k + 1;
        }
    }
}

/// Every node of the arena is in no z-order list.
pub open spec fn all_z_none(nodes: Seq<Node>) -> bool {
    forall|i: int| 0 <= i < nodes.len() ==> z_none(#[trigger] nodes[i])
}

/// With no z-order lists in the arena, the empty list covers every ring.
pub proof fn lemma_all_z_none_covers(nodes: Seq<Node>, r: Seq<usize>)
    requires
        all_z_none(nodes),
        forall|k: int| 0 <= k < r.len() ==> r[k] < nodes.len(),
    ensures
        z_covers(nodes, Seq::<usize>::empty(), r),
{
    assert forall|k: int| 0 <= k < r.len() implies Seq::<usize>::empty().contains(#[trigger] r[k]) || z_none(
        nodes[r[k] as int],
    ) by {
        assert(z_none(nodes[r[k] as int]));
    }
}

/// `x` is in `a + b` exactly when it is in `a` or in `b`.
pub proof fn lemma_concat_contains(a: Seq<usize>, b: Seq<usize>)
    ensures
        forall|x: usize| #[trigger] (a + b).contains(x) <==> a.contains(x) || b.contains(x),
{
    assert forall|x: usize| #[trigger] (a + b).contains(x) implies a.contains(x) || b.contains(x) by {
        let k = choose|k: int| 0 <= k < (a + b).len() && (a + b)[k] == x;
        if k < a.len() {
            assert(a[k] == x);
        } else {
            assert(b[k - a.len()] == x);
        }
    }
    assert forall|x: usize| a.contains(x) || b.contains(x) implies #[trigger] (a + b).contains(x) by {
        if a.contains(x) {
            let k = choose|k: int| 0 <= k < a.len() && a[k] == x;
            assert((a + b)[k] == x);
        } else {
            let k = choose|k: int| 0 <= k < b.len() && b[k] == x;
            assert((a + b)[a.len() + k] == x);
        }
    }
}

/// Whether node `x` is on ring `r`, which starts at `start_i`.
#[verifier::spinoff_prover]
pub fn on_ring(nodes: &Vec<Node>, start_i: usize, x: usize, Ghost(r): Ghost<Seq<usize>>) -> (res: bool)
    requires
        is_ring(nodes@, r),
        r[0] == start_i,
    ensures
        res == r.contains(x),
{
    let ghost n = r.len() as int;
    let mut p_i = start_i;
    let ghost mut k: int = 0;
    loop
        invariant
            is_ring(nodes@, r),
            n == r.len(),
            r[0] == start_i,
            0 <= k < n,
            p_i == r[k],
            forall|j: int| 0 <= j < k ==> r[j] != x,
        decreases n - k,
    {
        if p_i == x {
            return true;
        }
        proof {
            lemma_ring_basics(nodes@, r, k);
        }
        p_i = nodes[p_i].next;
        if p_i == start_i {
            proof {
                if k + 1 < n {
                    assert(r[k + 1] != r[0]);
                }
                assert(!r.contains(x)) by {
                    if r.contains(x) {
                        let j = choose|j: int| 0 <= j < n && r[j] == x;
                        assert(j < k + 1);
                    }
                }
            }
            return false;
        }
        proof {
            k = k + 1;
        }
    }
}

/// Splitting keeps every z-order link and gives the copies none.
proof fn lemma_split_z_none(old: Seq<Node>, new: Seq<Node>, a: usize, b: usize)
    requires
        all_z_none(old),
        split_effect(old, new, a, b),
        new.len() <= usize::MAX,
    ensures
        all_z_none(new),
{
    assert forall|i: int| 0 <= i < new.len() implies z_none(#[trigger] new[i]) by {
        if i < old.len() {
            assert(z_none(old[i]));
        } else if i == old.len() {
        } else {
            assert(i == old.len() + 1);
        }
    }
}

/// Filtering with no z-order list changes no z-order link.
proof fn lemma_filter_z_none(
    old: Seq<Node>,
    new: Seq<Node>,
    r: Seq<usize>,
    r2: Seq<usize>,
    zl2: Seq<usize>,
)
    requires
        all_z_none(old),
        old.len() <= usize::MAX,
        crate::integer::filter::relink_frame(old, new, r, Seq::<usize>::empty(), r2, zl2),
    ensures
        all_z_none(new),
{
    assert forall|i: int| 0 <= i < new.len() implies z_none(#[trigger] new[i]) by {
        let iu = i as usize;
        assert(!Seq::<usize>::empty().contains(iu));
        assert(new[iu as int].prev_z == old[iu as int].prev_z);
        assert(z_none(old[i]));
    }
}

/// find a bridge between vertices that connects hole with an outer ring and and link it
///
/// When a bridge is found, ring `r` and hole ring `h` become one ring (with
/// two new nodes, copies of the bridge's ends), filtered around the cut;
/// otherwise nothing changes.
#[verifier::rlimit(100)]
#[verifier::spinoff_prover]
pub fn eliminate_hole(
    nodes: &mut Vec<Node>,
    hole_i: usize,
    outer_node_i: usize,
    Ghost(r): Ghost<Seq<usize>>,
    Ghost(h): Ghost<Seq<usize>>,
    Ghost(dlen): Ghost<nat>,
) -> (res: (usize, Ghost<Seq<usize>>, Ghost<usize>))
    requires
        arena_ok(old(nodes)@, dlen as int),
        all_z_none(old(nodes)@),
        is_ring(old(nodes)@, r),
        r[0] == outer_node_i,
        is_ring(old(nodes)@, h),
        h[0] == hole_i,
        forall|x: usize| r.contains(x) ==> !h.contains(x),
    ensures
        arena_ok(final(nodes)@, dlen as int),
        all_z_none(final(nodes)@),
        is_ring(final(nodes)@, res.1@),
        res.1@[0] == res.0,
        forall|x: usize|
            res.1@.contains(x) ==> r.contains(x) || h.contains(x) || old(nodes)@.len() <= x,
        keeps_outside(old(nodes)@, final(nodes)@, r + h),
        !ray_hits_ring(old(nodes)@, r, xy_of(old(nodes)@, hole_i)) ==> final(nodes)@ == old(
            nodes,
        )@ && res.0 == outer_node_i && res.1@ == r,
        ray_hits_ring(old(nodes)@, r, xy_of(old(nodes)@, hole_i)) ==> final(nodes)@.len() == old(
            nodes,
        )@.len() + 2,
        ray_hits_ring(old(nodes)@, r, xy_of(old(nodes)@, hole_i)) ==> bridge_merge(
            old(nodes)@,
            final(nodes)@,
            r,
            h,
            res.2@,
            res.1@,
        ),
        forall|i: int|
            0 <= i < old(nodes)@.len() ==> (#[trigger] final(nodes)@[i]).steiner == old(
                nodes,
            )@[i].steiner,
{
    let ghost m0 = nodes@;
    let ghost big = r + h;
    let ghost no_list: Seq<usize> = Seq::empty();
    proof {
        lemma_concat_contains(r, h);
        lemma_ring_basics(m0, h, 0);
    }
    let bridge = find_hole_bridge(nodes, hole_i, outer_node_i, Ghost(r));
    let bridge_i = match bridge {
        Some(b) => b,
        None => {
            proof {
                lemma_keeps_refl(m0, big);
            }
            return (outer_node_i, Ghost(r), Ghost(outer_node_i));
        },
    };
    let ghost kb = r.index_of(bridge_i);
    let ghost rb = rotate(r, kb);
    let ghost a2 = m0.len() as usize;
    let ghost mr = merged_ring(rb, h, a2);
    let ghost hl = h.len() as int;
    proof {
        lemma_rotate(m0, r, kb);
        assert forall|x: usize| rb.contains(x) implies r.contains(x) by {
            assert(rb.to_set().contains(x));
        }
        assert forall|i: int, k: int| 0 <= i < rb.len() && 0 <= k < h.len() implies rb[i] != h[k] by {
            assert(rb.contains(rb[i]));
            assert(h.contains(h[k]));
        }
        lemma_ring_basics(m0, rb, 0);
        lemma_ring_basics(m0, h, 0);
        assert(rb.contains(rb[succ(rb.len() as int, 0)]));
        assert(h.contains(h[hl - 1]));
        assert(nodes.len() == m0.len());
    }
    let b2 = split_polygon(nodes, bridge_i, hole_i);
    let ghost m1 = nodes@;
    let ghost ring1 = rotate(mr, hl + 1);
    proof {
        assert(nodes.len() == m1.len());
        lemma_ring_merge(m0, m1, rb, h);
        crate::integer::nodes::lemma_merged_table(rb, h, a2);
        lemma_split_arena(m0, m1, bridge_i, hole_i, big, dlen as int, 0, false, (0, 0, 0, 0));
        lemma_split_z_none(m0, m1, bridge_i, hole_i);
        lemma_rotate(m1, mr, hl + 1);
        lemma_ring_basics(m1, ring1, 0);
        assert(ring1.contains(ring1[1]));
        lemma_all_z_none_covers(m1, ring1);
        assert forall|i: int| 0 <= i < m0.len() implies (#[trigger] m1[i]).steiner == m0[i].steiner by {}
        assert forall|x: usize| ring1.contains(x) implies big.contains(x) || x >= m0.len() by {
            assert(ring1.to_set().contains(x));
            let k = choose|k: int| 0 <= k < mr.len() && mr[k] == x;
            if k == 0 {
                assert(rb.contains(rb[0]));
            } else if k <= hl {
                assert(h.contains(h[k - 1]));
            } else if k >= hl + 3 {
                assert(rb.contains(rb[k - hl - 2]));
            }
        }
    }
    let b2_next = nodes[b2].next;
    let f1 = filter_points(nodes, b2, Some(b2_next), Ghost(ring1), Ghost(no_list));
    let ghost m2 = nodes@;
    proof {
        assert(nodes.len() == m2.len());
        lemma_relink_keeps(m1, m2, ring1, Seq::<usize>::empty(), f1.1@, f1.2@);
        lemma_keeps_trans(m0, m1, m2, big, ring1);
        lemma_keeps_arena(m1, m2, ring1, dlen as int, 0, false, (0, 0, 0, 0));
        lemma_filter_z_none(m1, m2, ring1, f1.1@, f1.2@);
        assert forall|x: usize| f1.1@.contains(x) implies big.contains(x) || x >= m0.len() by {
            assert(ring1.contains(x));
        }
        assert forall|x: usize| ring1.contains(x) implies mr.contains(x) by {
            assert(ring1.to_set().contains(x));
        }
        assert forall|x: usize| mr.contains(x) implies ring1.contains(x) && x < m1.len() by {
            assert(mr.to_set().contains(x));
            let k = ring1.index_of(x);
            lemma_ring_basics(m1, ring1, k);
        }
        lemma_merge_keep(m0, m1, m2, mr, ring1, Seq::<usize>::empty(), f1.1@, f1.2@);
        assert forall|i: int| 0 <= i < m0.len() implies (#[trigger] m2[i]).steiner == m0[i].steiner by {
            let iu = i as usize;
            assert(same_payload(m2[iu as int], m1[iu as int]));
            assert(m1[i].steiner == m0[i].steiner);
        }
    }
    let start_i = if on_ring(nodes, f1.0, bridge_i, Ghost(f1.1@)) {
        Some(bridge_i)
    } else {
        proof {
            lemma_ring_basics(m1, ring1, 0);
            assert(node_links_in(m2[bridge_i as int], m2.len() as int));
        }
        let w = nodes[bridge_i].prev;
        if on_ring(nodes, f1.0, w, Ghost(f1.1@)) {
            Some(w)
        } else {
            None
        }
    };
    match start_i {
        Some(s) => {
            let ghost ks = f1.1@.index_of(s);
            let ghost ring2 = rotate(f1.1@, ks);
            proof {
                lemma_rotate(m2, f1.1@, ks);
                lemma_ring_basics(m2, ring2, 0);
                lemma_all_z_none_covers(m2, ring2);
            }
            let end_i = if s == bridge_i {
                Some(nodes[bridge_i].next)
            } else {
                None
            };
            proof {
                if s == bridge_i {
                    assert(ring2.contains(ring2[succ(ring2.len() as int, 0)]));
                }
            }
            let f2 = filter_points(nodes, s, end_i, Ghost(ring2), Ghost(no_list));
            let ghost m3 = nodes@;
            proof {
                assert(nodes.len() == m3.len());
                lemma_relink_keeps(m2, m3, ring2, Seq::<usize>::empty(), f2.1@, f2.2@);
                assert forall|x: usize| ring2.contains(x) implies big.contains(x) || x >= m0.len() by {
                    assert(ring2.to_set().contains(x));
                    assert(f1.1@.contains(x));
                }
                lemma_keeps_trans(m0, m2, m3, big, ring2);
                lemma_keeps_arena(m2, m3, ring2, dlen as int, 0, false, (0, 0, 0, 0));
                lemma_filter_z_none(m2, m3, ring2, f2.1@, f2.2@);
                assert forall|x: usize| f2.1@.contains(x) implies r.contains(x) || h.contains(x)
                    || m0.len() <= x by {
                    assert(ring2.contains(x));
                }
                assert forall|x: usize| ring2.contains(x) implies f1.1@.contains(x) by {
                    assert(ring2.to_set().contains(x));
                }
                assert forall|x: usize| f1.1@.contains(x) && !ring2.contains(x) implies !(
                #[trigger] m2[x as int]).steiner by {
                    assert(f1.1@.to_set().contains(x));
                }
                lemma_merge_keep(m0, m2, m3, mr, ring2, Seq::<usize>::empty(), f2.1@, f2.2@);
                assert(r.contains(bridge_i));
                lemma_bridge_merge(m0, m3, r, h, bridge_i, f2.1@, mr);
                assert forall|i: int| 0 <= i < m0.len() implies (#[trigger] m3[i]).steiner
                    == m0[i].steiner by {
                    let iu = i as usize;
                    assert(same_payload(m3[iu as int], m2[iu as int]));
                    assert(m2[i].steiner == m0[i].steiner);
                }
            }
            (f2.0, Ghost(f2.1@), Ghost(bridge_i))
        },
        None => {
            proof {
                assert forall|x: usize| f1.1@.contains(x) implies r.contains(x) || h.contains(x)
                    || m0.len() <= x by {
                    assert(big.contains(x) || x >= m0.len());
                }
                assert(r.contains(bridge_i));
                lemma_bridge_merge(m0, m2, r, h, bridge_i, f1.1@, mr);
            }
            (f1.0, Ghost(f1.1@), Ghost(bridge_i))
        },
    }
}

/// Ring `res` of arena `n` is ring `r` bridged from its node `b` to the
/// first node of hole ring `h` (the ring `merged_ring` lists, with the copies
/// that the bridge made) less some nodes that filtering took out, none of
/// them a Steiner point.
#[verifier::opaque]
pub open spec fn bridge_merge(
    o: Seq<Node>,
    n: Seq<Node>,
    r: Seq<usize>,
    h: Seq<usize>,
    b: usize,
    res: Seq<usize>,
) -> bool {
    let mr = merged_ring(rotate(r, r.index_of(b)), h, o.len() as usize);
    &&& r.contains(b)
    &&& forall|x: usize| res.contains(x) ==> mr.contains(x)
    &&& forall|x: usize| mr.contains(x) && !res.contains(x) ==> !(#[trigger] n[x as int]).steiner
}

proof fn lemma_bridge_merge(
    o: Seq<Node>,
    n: Seq<Node>,
    r: Seq<usize>,
    h: Seq<usize>,
    b: usize,
    res: Seq<usize>,
    mr: Seq<usize>,
)
    requires
        mr == merged_ring(rotate(r, r.index_of(b)), h, o.len() as usize),
        r.contains(b),
        forall|x: usize| res.contains(x) ==> mr.contains(x),
        forall|x: usize| mr.contains(x) && !res.contains(x) ==> !(#[trigger] n[x as int]).steiner,
    ensures
        bridge_merge(o, n, r, h, b, res),
{
    reveal(bridge_merge);
}

/// A filtering of ring `ra` (whose nodes lie on the merged ring `mr`, and
/// which kept every Steiner node of `mr`) keeps both facts.
proof fn lemma_merge_keep(
    m0: Seq<Node>,
    ma: Seq<Node>,
    mb: Seq<Node>,
    mr: Seq<usize>,
    ra: Seq<usize>,
    za: Seq<usize>,
    rb: Seq<usize>,
    zb: Seq<usize>,
)
    requires
        forall|x: usize| ra.contains(x) ==> mr.contains(x),
        forall|x: usize| mr.contains(x) && !ra.contains(x) ==> !(#[trigger] ma[x as int]).steiner,
        forall|x: usize| mr.contains(x) ==> x < ma.len(),
        crate::integer::filter::shrink_frame(ma, mb, ra, za, rb, zb),
    ensures
        forall|x: usize| rb.contains(x) ==> mr.contains(x),
        forall|x: usize| mr.contains(x) && !rb.contains(x) ==> !(#[trigger] mb[x as int]).steiner,
{
    assert forall|x: usize| mr.contains(x) && !rb.contains(x) implies !(#[trigger] mb[x
        as int]).steiner by {
        assert(same_payload(mb[x as int], ma[x as int]));
    }
}

/// Hole entry `a` (a leftmost node and its x) comes before hole entry `b`:
/// by x, then by y, then by the slope of the edge that leaves the node.
pub open spec fn hole_before(nodes: Seq<Node>, a: (usize, i32), b: (usize, i32)) -> bool {
    let pa = xy_of(nodes, a.0);
    let pb = xy_of(nodes, b.0);
    let na = xy_of(nodes, nodes[a.0 as int].next);
    let nb = xy_of(nodes, nodes[b.0 as int].next);
    ||| a.1 < b.1
    ||| a.1 == b.1 && pa[1] < pb[1]
    ||| a.1 == b.1 && pa[1] == pb[1] && (na[1] - pa[1]) * (nb[0] - pb[0]) < (nb[1] - pb[1]) * (na[0]
        - pa[0])
}

fn hole_before_exec(nodes: &Vec<Node>, a: (usize, i32), b: (usize, i32)) -> (r: bool)
    requires
        links_ok(nodes@),
        a.0 < nodes@.len(),
        b.0 < nodes@.len(),
    ensures
        r == hole_before(nodes@, a, b),
        a.1 < b.1 ==> r,
        b.1 < a.1 ==> !r,
        a.1 == b.1 && nodes@[a.0 as int].xy[1] < nodes@[b.0 as int].xy[1] ==> r,
        a.1 == b.1 && nodes@[b.0 as int].xy[1] < nodes@[a.0 as int].xy[1] ==> !r,
        a.1 == b.1 && nodes@[a.0 as int].xy[1] == nodes@[b.0 as int].xy[1] ==> {
            let pa = nodes@[a.0 as int].xy;
            let pb = nodes@[b.0 as int].xy;
            let na = nodes@[nodes@[a.0 as int].next as int].xy;
            let nb = nodes@[nodes@[b.0 as int].next as int].xy;
            r == ((na[1] - pa[1]) * (nb[0] - pb[0]) < (nb[1] - pb[1]) * (na[0] - pa[0]))
        },
{
    if a.1 != b.1 {
        return a.1 < b.1;
    }
    let pa = nodes[a.0];
    let pb = nodes[b.0];
    if pa.xy[1] != pb.xy[1] {
        return pa.xy[1] < pb.xy[1];
    }
    proof {
        assert(node_links_in(nodes@[a.0 as int], nodes@.len() as int));
        assert(node_links_in(nodes@[b.0 as int], nodes@.len() as int));
    }
    let na = nodes[pa.next];
    let nb = nodes[pb.next];
    diff_product(na.xy[1], pa.xy[1], nb.xy[0], pb.xy[0]) < diff_product(
        nb.xy[1],
        pb.xy[1],
        na.xy[0],
        pa.xy[0],
    )
}

/// A sequence of `n` distinct positions below `n` takes every position.
pub proof fn lemma_perm_onto(perm: Seq<int>)
    requires
        forall|k: int| 0 <= k < perm.len() ==> 0 <= #[trigger] perm[k] < perm.len(),
        forall|j: int, k: int| 0 <= j < k < perm.len() ==> perm[j] != perm[k],
    ensures
        forall|t: int| 0 <= t < perm.len() ==> #[trigger] perm.contains(t),
{
    let n = perm.len() as int;
    assert(perm.no_duplicates()) by {
        assert forall|j: int, k: int| 0 <= j < perm.len() && 0 <= k < perm.len() && j != k implies perm[j]
            != perm[k] by {
            if j > k {
                assert(perm[k] != perm[j]);
            }
        }
    }
    perm.unique_seq_to_set();
    vstd::set_lib::lemma_int_range(0, n);
    let range = vstd::set_lib::set_int_range(0, n);
    assert(perm.to_set().subset_of(range)) by {
        assert forall|x: int| perm.to_set().contains(x) implies range.contains(x) by {
            assert(perm.contains(x));
            let k = choose|k: int| 0 <= k < perm.len() && perm[k] == x;
            assert(0 <= perm[k] < n);
        }
    }
    vstd::seq_lib::seq_to_set_is_finite(perm);
    vstd::set_lib::lemma_subset_equality(perm.to_set(), range);
    assert forall|t: int| 0 <= t < perm.len() implies #[trigger] perm.contains(t) by {
        assert(range.contains(t));
        assert(perm.to_set().contains(t));
    }
}

/// Sorts the hole entries by `hole_before` with an insertion sort: each
/// entry moves left past the entries it comes before, so that afterwards no
/// entry comes before the one ahead of it. Returns where each entry came
/// from.
#[verifier::spinoff_prover]
pub fn sort_holes(queue: &mut Vec<(usize, i32)>, nodes: &Vec<Node>) -> (perm: Ghost<Seq<int>>)
    requires
        links_ok(nodes@),
        forall|k: int| 0 <= k < old(queue)@.len() ==> (#[trigger] old(queue)@[k]).0 < nodes@.len(),
    ensures
        final(queue)@.len() == old(queue)@.len(),
        perm@.len() == old(queue)@.len(),
        forall|k: int|
            0 <= k < perm@.len() ==> 0 <= #[trigger] perm@[k] < perm@.len() && final(queue)@[k]
                == old(queue)@[perm@[k]],
        forall|j: int, k: int| 0 <= j < k < perm@.len() ==> perm@[j] != perm@[k],
        forall|k: int|
            0 <= k && k + 1 < final(queue)@.len() ==> !hole_before(
                nodes@,
                #[trigger] final(queue)@[k + 1],
                final(queue)@[k],
            ),
        forall|j: int, k: int|
            0 <= j <= k < final(queue)@.len() ==> entry_le(
                nodes@,
                #[trigger] final(queue)@[j],
                #[trigger] final(queue)@[k],
            ),
{
    let ghost q_in = queue@;
    let n = queue.len();
    let ghost mut perm: Seq<int> = Seq::new(n as nat, |k: int| k);
    if n == 0 {
        return Ghost(perm);
    }
    let mut i: usize = 1;
    while i < n
        invariant
            n == queue@.len(),
            n == q_in.len(),
            1 <= i <= n,
            links_ok(nodes@),
            forall|k: int| 0 <= k < n ==> (#[trigger] queue@[k]).0 < nodes@.len(),
            perm.len() == n,
            forall|k: int| 0 <= k < n ==> 0 <= #[trigger] perm[k] < n && queue@[k] == q_in[perm[k]],
            forall|j: int, k: int| 0 <= j < k < n ==> perm[j] != perm[k],
            forall|k: int|
                0 <= k && k + 1 < i ==> !hole_before(nodes@, #[trigger] queue@[k + 1], queue@[k]),
        decreases n - i,
    {
        let ghost q0 = queue@;
        let ghost p0 = perm;
        let mut j: usize = i;
        loop
            invariant
                n == queue@.len(),
                n == q0.len(),
                1 <= i < n,
                0 <= j <= i,
                links_ok(nodes@),
                forall|k: int| 0 <= k < n ==> (#[trigger] q0[k]).0 < nodes@.len(),
                forall|k: int| 0 <= k && k + 1 < i ==> !hole_before(nodes@, #[trigger] q0[k + 1], q0[k]),
                forall|k: int| 0 <= k < j ==> #[trigger] queue@[k] == q0[k],
                queue@[j as int] == q0[i as int],
                forall|k: int| j < k <= i ==> #[trigger] queue@[k] == q0[k - 1],
                forall|k: int| i < k < n ==> #[trigger] queue@[k] == q0[k],
                j < i ==> hole_before(nodes@, queue@[j as int], queue@[j + 1]),
                perm.len() == n,
                p0.len() == n,
                forall|k: int| 0 <= k < n ==> 0 <= #[trigger] p0[k] < n && q0[k] == q_in[p0[k]],
                forall|j1: int, k: int| 0 <= j1 < k < n ==> p0[j1] != p0[k],
                forall|k: int| 0 <= k < j ==> #[trigger] perm[k] == p0[k],
                perm[j as int] == p0[i as int],
                forall|k: int| j < k <= i ==> #[trigger] perm[k] == p0[k - 1],
                forall|k: int| i < k < n ==> #[trigger] perm[k] == p0[k],
            ensures
                j == 0 || !hole_before(nodes@, queue@[j as int], queue@[j - 1]),
                forall|k: int| 0 <= k < j ==> #[trigger] queue@[k] == q0[k],
                queue@[j as int] == q0[i as int],
                forall|k: int| j < k <= i ==> #[trigger] queue@[k] == q0[k - 1],
                forall|k: int| i < k < n ==> #[trigger] queue@[k] == q0[k],
                j < i ==> hole_before(nodes@, queue@[j as int], queue@[j + 1]),
                perm.len() == n,
                forall|k: int| 0 <= k < j ==> #[trigger] perm[k] == p0[k],
                perm[j as int] == p0[i as int],
                forall|k: int| j < k <= i ==> #[trigger] perm[k] == p0[k - 1],
                forall|k: int| i < k < n ==> #[trigger] perm[k] == p0[k],
            decreases j,
        {
            if j == 0 {
                break;
            }
            let cur = queue[j];
            let prev = queue[j - 1];
            proof {
                assert(queue@[j - 1] == q0[j - 1]);
            }
            if !hole_before_exec(nodes, cur, prev) {
                break;
            }
            queue.set(j - 1, cur);
            queue.set(j, prev);
            proof {
                let pj = perm[j as int];
                let pjm = perm[j - 1];
                perm = perm.update(j - 1, pj).update(j as int, pjm);
            }
            j = j - 1;
        }
        proof {
            assert forall|k: int| 0 <= k && k + 1 < i + 1 implies !hole_before(
                nodes@,
                #[trigger] queue@[k + 1],
                queue@[k],
            ) by {
                if k + 1 < j {
                    assert(queue@[k + 1] == q0[k + 1]);
                    assert(queue@[k] == q0[k]);
                    assert(!hole_before(nodes@, q0[k + 1], q0[k]));
                } else if k + 1 == j {
                } else if k == j {
                    assert(hole_before(nodes@, queue@[k], queue@[k + 1]));
                } else {
                    assert(queue@[k + 1] == q0[k]);
                    assert(queue@[k] == q0[k - 1]);
                    assert(!hole_before(nodes@, q0[(k - 1) + 1], q0[k - 1]));
                }
            }
            assert forall|k: int| 0 <= k < n implies 0 <= #[trigger] perm[k] < n && queue@[k]
                == q_in[perm[k]] by {
                if k < j {
                } else if k == j {
                } else if k <= i {
                } else {
                }
            }
            assert forall|j1: int, k: int| 0 <= j1 < k < n implies perm[j1] != perm[k] by {
                let a = if j1 < j {
                    j1
                } else if j1 == j {
                    i as int
                } else if j1 <= i {
                    j1 - 1
                } else {
                    j1
                };
                let b = if k < j {
                    k
                } else if k == j {
                    i as int
                } else if k <= i {
                    k - 1
                } else {
                    k
                };
                assert(perm[j1] == p0[a]);
                assert(perm[k] == p0[b]);
            }
        }
        i = i + 1;
    }
    proof {
        assert forall|k: int| 0 <= k && k + 1 < queue@.len() implies entry_le(
            nodes@,
            #[trigger] queue@[k],
            queue@[k + 1],
        ) by {
            assert(!hole_before(nodes@, queue@[k + 1], queue@[k]));
        }
        lemma_entry_chain(nodes@, queue@);
    }
    Ghost(perm)
}

/// Entry `a` does not come after entry `b`: its x is smaller, or the x is
/// the same and the y of its node is no larger.
pub open spec fn entry_le(nodes: Seq<Node>, a: (usize, i32), b: (usize, i32)) -> bool {
    ||| a.1 < b.1
    ||| a.1 == b.1 && xy_of(nodes, a.0)[1] <= xy_of(nodes, b.0)[1]
}

/// Entries in order from each to the next are in order overall.
proof fn lemma_entry_chain(nodes: Seq<Node>, q: Seq<(usize, i32)>)
    requires
        forall|k: int| 0 <= k && k + 1 < q.len() ==> entry_le(nodes, #[trigger] q[k], q[k + 1]),
    ensures
        forall|j: int, k: int|
            0 <= j <= k < q.len() ==> entry_le(nodes, #[trigger] q[j], #[trigger] q[k]),
    decreases q.len(),
{
    if q.len() > 0 {
        let p = q.drop_last();
        assert forall|k: int| 0 <= k && k + 1 < p.len() implies entry_le(nodes, #[trigger] p[k], p[k + 1]) by {
            assert(p[k] == q[k] && p[k + 1] == q[k + 1]);
        }
        lemma_entry_chain(nodes, p);
        assert forall|j: int, k: int| 0 <= j <= k < q.len() implies entry_le(
            nodes,
            #[trigger] q[j],
            #[trigger] q[k],
        ) by {
            if k < q.len() - 1 {
                assert(p[j] == q[j] && p[k] == q[k]);
            } else if j < k {
                assert(p[j] == q[j] && p[k - 1] == q[k - 1]);
                assert(entry_le(nodes, p[j], p[k - 1]));
                assert(entry_le(nodes, q[k - 1], q[k]));
            }
        }
    }
}

} // verus!
