//! Read-only questions about a polygon ring: its leftmost vertex, whether a
//! diagonal lies inside it, whether a segment crosses it.
use vstd::prelude::*;

use crate::integer::geom::{
    area, equals, intersects, max_i32, max_int, min_i32, min_int, same_point, segments_intersect,
    tri_area, Point,
};
use crate::integer::nodes::{is_ring, lemma_ring_basics, links_ok, node_links_in, succ, Node};

verus! {

pub open spec fn xy_of(nodes: Seq<Node>, i: usize) -> Point {
    nodes[i as int].xy
}

/// `p` comes before `q` in (x, y) order.
pub open spec fn lex_less(p: Point, q: Point) -> bool {
    p[0] < q[0] || (p[0] == q[0] && p[1] < q[1])
}

/// `r[k]` has the least (x, y) of ring `r`, and is the first node of `r` that has it.
pub open spec fn is_first_leftmost(nodes: Seq<Node>, r: Seq<usize>, k: int) -> bool {
    &&& 0 <= k < r.len()
    &&& forall|j: int| 0 <= j < r.len() ==> !lex_less(#[trigger] xy_of(nodes, r[j]), xy_of(nodes, r[k]))
    &&& forall|j: int| 0 <= j < k ==> lex_less(xy_of(nodes, r[k]), #[trigger] xy_of(nodes, r[j]))
}

/// find the leftmost node of a polygon ring
#[verifier::spinoff_prover]
pub fn get_leftmost(nodes: &Vec<Node>, start_i: usize, Ghost(r): Ghost<Seq<usize>>) -> (res: usize)
    requires
        is_ring(nodes@, r),
        r[0] == start_i,
    ensures
        exists|k: int| is_first_leftmost(nodes@, r, k) && res == r[k],
{
    let ghost n = r.len() as int;
    let mut p_i = start_i;
    let mut leftmost_i = start_i;
    let ghost mut k: int = 0;
    let ghost mut lk: int = 0;
    loop
        invariant
            is_ring(nodes@, r),
            r[0] == start_i,
            n == r.len(),
            0 <= k < n,
            0 <= lk <= k,
            p_i == r[k],
            leftmost_i == r[lk],
            forall|j: int| 0 <= j < k ==> !lex_less(#[trigger] xy_of(nodes@, r[j]), xy_of(nodes@, r[lk])),
            forall|j: int| 0 <= j < lk ==> lex_less(xy_of(nodes@, r[lk]), #[trigger] xy_of(nodes@, r[j])),
        decreases n - k,
    {
        proof {
            lemma_ring_basics(nodes@, r, k);
            lemma_ring_basics(nodes@, r, lk);
        }
        let p = nodes[p_i];
        let leftmost = nodes[leftmost_i];
        if p.xy[0] < leftmost.xy[0] || (p.xy[0] == leftmost.xy[0] && p.xy[1] < leftmost.xy[1]) {
            leftmost_i = p_i;
            proof {
                lk = k;
            }
        }
        p_i = p.next;
        if p_i == start_i {
            proof {
                if k + 1 < n {
                    assert(r[k + 1] != r[0]);
                }
                assert(is_first_leftmost(nodes@, r, lk));
            }
            return leftmost_i;
        }
        proof {
            k = k + 1;
        }
    }
}

/// Whether the diagonal from `a` (between `a_prev` and `a_next`) towards `b`
/// leaves `a` into the polygon's interior.
pub open spec fn locally_inside_spec(a_prev: Point, a: Point, a_next: Point, b: Point) -> bool {
    if tri_area(a_prev, a, a_next) < 0 {
        tri_area(a, b, a_next) >= 0 && tri_area(a, a_prev, b) >= 0
    } else {
        tri_area(a, b, a_prev) < 0 || tri_area(a, a_next, b) < 0
    }
}

pub open spec fn locally_inside_at(nodes: Seq<Node>, a: usize, b: usize) -> bool {
    locally_inside_spec(
        xy_of(nodes, nodes[a as int].prev),
        xy_of(nodes, a),
        xy_of(nodes, nodes[a as int].next),
        xy_of(nodes, b),
    )
}

/// check if a polygon diagonal is locally inside the polygon
pub fn locally_inside(nodes: &Vec<Node>, a_i: usize, b_i: usize) -> (r: bool)
    requires
        links_ok(nodes@),
        a_i < nodes@.len(),
        b_i < nodes@.len(),
    ensures
        r == locally_inside_at(nodes@, a_i, b_i),
{
    let a = nodes[a_i];
    let b = nodes[b_i];
    assert(node_links_in(nodes@[a_i as int], nodes@.len() as int));
    let a_prev = nodes[a.prev];
    let a_next = nodes[a.next];
    if area(a_prev.xy, a.xy, a_next.xy) < 0 {
        area(a.xy, b.xy, a_next.xy) >= 0 && area(a.xy, a_prev.xy, b.xy) >= 0
    } else {
        area(a.xy, b.xy, a_prev.xy) < 0 || area(a.xy, a_next.xy, b.xy) < 0
    }
}

pub open spec fn sector_contains_sector_at(nodes: Seq<Node>, m: usize, p: usize) -> bool {
    &&& tri_area(
        xy_of(nodes, nodes[m as int].prev),
        xy_of(nodes, m),
        xy_of(nodes, nodes[p as int].prev),
    ) < 0
    &&& tri_area(
        xy_of(nodes, nodes[p as int].next),
        xy_of(nodes, m),
        xy_of(nodes, nodes[m as int].next),
    ) < 0
}

/// whether sector in vertex m contains sector in vertex p in the same coordinates
pub fn sector_contains_sector(nodes: &Vec<Node>, m_i: usize, p_i: usize) -> (r: bool)
    requires
        links_ok(nodes@),
        m_i < nodes@.len(),
        p_i < nodes@.len(),
    ensures
        r == sector_contains_sector_at(nodes@, m_i, p_i),
{
    let m = nodes[m_i];
    let p = nodes[p_i];
    assert(node_links_in(nodes@[m_i as int], nodes@.len() as int));
    assert(node_links_in(nodes@[p_i as int], nodes@.len() as int));
    area(nodes[m.prev].xy, m.xy, nodes[p.prev].xy) < 0 && area(nodes[p.next].xy, m.xy, nodes[m.next].xy)
        < 0
}

/// Whether edge `p pn` flips the inside/outside parity of the midpoint of
/// `a b`: the edge straddles the midpoint's height and the midpoint lies left
/// of the edge at that height. Coordinates are doubled to stay exact.
pub open spec fn edge_flips(p: Point, pn: Point, a: Point, b: Point) -> bool {
    let two_px = a[0] + b[0];
    let two_py = a[1] + b[1];
    let py2 = p[1] + p[1];
    let pny2 = pn[1] + pn[1];
    let dy = pn[1] - p[1];
    let dx = pn[0] - p[0];
    let lhs = (two_px - (p[0] + p[0])) * dy;
    let rhs = dx * (two_py - py2);
    &&& ((py2 > two_py) != (pny2 > two_py))
    &&& pn[1] != p[1]
    &&& if dy > 0 {
        lhs < rhs
    } else {
        lhs > rhs
    }
}

/// How many of the first `k` edges of ring `r` the midpoint ray of `a b` crosses.
pub open spec fn flips(nodes: Seq<Node>, r: Seq<usize>, a: Point, b: Point, k: int) -> nat
    decreases k,
{
    if k <= 0 {
        0
    } else {
        flips(nodes, r, a, b, k - 1) + if edge_flips(
            xy_of(nodes, r[k - 1]),
            xy_of(nodes, r[succ(r.len() as int, k - 1)]),
            a,
            b,
        ) {
            1nat
        } else {
            0nat
        }
    }
}

/// check if the middle point of a polygon diagonal is inside the polygon
#[verifier::spinoff_prover]
pub fn middle_inside(nodes: &Vec<Node>, a_i: usize, b_i: usize, Ghost(r): Ghost<Seq<usize>>) -> (res:
    bool)
    requires
        is_ring(nodes@, r),
        r[0] == a_i,
        b_i < nodes@.len(),
    ensures
        res == (flips(nodes@, r, xy_of(nodes@, a_i), xy_of(nodes@, b_i), r.len() as int) % 2 == 1),
{
    let ghost n = r.len() as int;
    let ghost ap = xy_of(nodes@, a_i);
    let ghost bp = xy_of(nodes@, b_i);
    proof {
        lemma_ring_basics(nodes@, r, 0);
    }
    let a = nodes[a_i];
    let b = nodes[b_i];
    let two_px = a.xy[0] as i64 + b.xy[0] as i64;
    let two_py = a.xy[1] as i64 + b.xy[1] as i64;
    let mut p_i = a_i;
    let mut inside = false;
    let ghost mut k: int = 0;
    loop
        invariant
            is_ring(nodes@, r),
            r[0] == a_i,
            n == r.len(),
            0 <= k < n,
            p_i == r[k],
            ap == xy_of(nodes@, a_i),
            bp == xy_of(nodes@, b_i),
            two_px == ap[0] + bp[0],
            two_py == ap[1] + bp[1],
            inside == (flips(nodes@, r, ap, bp, k) % 2 == 1),
        decreases n - k,
    {
        proof {
            lemma_ring_basics(nodes@, r, k);
            lemma_ring_basics(nodes@, r, succ(n, k));
        }
        let p = nodes[p_i];
        let p_next = nodes[p.next];
        let py_doubled = p.xy[1] as i64 + p.xy[1] as i64;
        let pn_py_doubled = p_next.xy[1] as i64 + p_next.xy[1] as i64;
        let crosses = (py_doubled > two_py) != (pn_py_doubled > two_py) && p_next.xy[1] != p.xy[1];
        let ghost flip = edge_flips(p.xy, p_next.xy, ap, bp);
        if crosses {
            let dy = p_next.xy[1] as i128 - p.xy[1] as i128;
            let dx = p_next.xy[0] as i128 - p.xy[0] as i128;
            let u = two_px as i128 - (p.xy[0] as i128 + p.xy[0] as i128);
            let v = two_py as i128 - py_doubled as i128;
            proof {
                crate::integer::geom::lemma_mul_bounded(u as int, dy as int, 0x2_0000_0000);
                crate::integer::geom::lemma_mul_bounded(dx as int, v as int, 0x2_0000_0000);
            }
            let lhs = u * dy;
            let rhs = dx * v;
            let px_lt_intersect = if dy > 0 {
                lhs < rhs
            } else {
                lhs > rhs
            };
            assert(px_lt_intersect == flip);
            if px_lt_intersect {
                inside = !inside;
            }
        } else {
            assert(!flip);
        }
        assert(flips(nodes@, r, ap, bp, k + 1) == flips(nodes@, r, ap, bp, k) + if flip {
            1nat
        } else {
            0nat
        });
        p_i = p.next;
        if p_i == a_i {
            proof {
                if k + 1 < n {
                    assert(r[k + 1] != r[0]);
                }
            }
            return inside;
        }
        proof {
            k = k + 1;
        }
    }
}

/// Whether ring edge `r[k] r[k+1]` is a segment that the diagonal `a b`
/// must not cross: it shares no vertex index with the diagonal, their
/// bounding boxes overlap and the segments intersect.
pub open spec fn edge_hits(nodes: Seq<Node>, r: Seq<usize>, k: int, a: usize, b: usize) -> bool {
    let p = r[k];
    let pn = r[succ(r.len() as int, k)];
    let ai = nodes[a as int].index;
    let bi = nodes[b as int].index;
    let pi = nodes[p as int].index;
    let pni = nodes[pn as int].index;
    let pp = xy_of(nodes, p);
    let pq = xy_of(nodes, pn);
    let ap = xy_of(nodes, a);
    let bp = xy_of(nodes, b);
    &&& pi != ai && pi != bi && pni != ai && pni != bi
    &&& min_int(pp[0] as int, pq[0] as int) <= max_int(ap[0] as int, bp[0] as int)
    &&& max_int(pp[0] as int, pq[0] as int) >= min_int(ap[0] as int, bp[0] as int)
    &&& min_int(pp[1] as int, pq[1] as int) <= max_int(ap[1] as int, bp[1] as int)
    &&& max_int(pp[1] as int, pq[1] as int) >= min_int(ap[1] as int, bp[1] as int)
    &&& segments_intersect(pp, pq, ap, bp)
}

pub open spec fn crosses_ring(nodes: Seq<Node>, r: Seq<usize>, a: usize, b: usize) -> bool {
    exists|k: int| 0 <= k < r.len() && #[trigger] edge_hits(nodes, r, k, a, b)
}

/// check if a polygon diagonal intersects any polygon segments
#[verifier::spinoff_prover]
pub fn intersects_polygon(nodes: &Vec<Node>, a_i: usize, b_i: usize, Ghost(r): Ghost<Seq<usize>>) -> (res:
    bool)
    requires
        is_ring(nodes@, r),
        r[0] == a_i,
        b_i < nodes@.len(),
    ensures
        res == crosses_ring(nodes@, r, a_i, b_i),
{
    let ghost n = r.len() as int;
    proof {
        lemma_ring_basics(nodes@, r, 0);
    }
    let a = nodes[a_i];
    let b = nodes[b_i];
    let ai = a.index;
    let bi = b.index;
    let x0 = min_i32(a.xy[0], b.xy[0]);
    let y0 = min_i32(a.xy[1], b.xy[1]);
    let x1 = max_i32(a.xy[0], b.xy[0]);
    let y1 = max_i32(a.xy[1], b.xy[1]);
    let mut p_i = a_i;
    let ghost mut k: int = 0;
    loop
        invariant
            is_ring(nodes@, r),
            r[0] == a_i,
            n == r.len(),
            0 <= k < n,
            p_i == r[k],
            a == nodes@[a_i as int],
            b == nodes@[b_i as int],
            x0 == min_int(a.xy[0] as int, b.xy[0] as int),
            y0 == min_int(a.xy[1] as int, b.xy[1] as int),
            x1 == max_int(a.xy[0] as int, b.xy[0] as int),
            y1 == max_int(a.xy[1] as int, b.xy[1] as int),
            ai == a.index,
            bi == b.index,
            forall|j: int| 0 <= j < k ==> !#[trigger] edge_hits(nodes@, r, j, a_i, b_i),
        decreases n - k,
    {
        proof {
            lemma_ring_basics(nodes@, r, k);
            lemma_ring_basics(nodes@, r, succ(n, k));
        }
        let p = nodes[p_i];
        let p_next = nodes[p.next];
        let pi = p.index;
        let pni = p_next.index;
        let px0 = min_i32(p.xy[0], p_next.xy[0]);
        let py0 = min_i32(p.xy[1], p_next.xy[1]);
        let px1 = max_i32(p.xy[0], p_next.xy[0]);
        let py1 = max_i32(p.xy[1], p_next.xy[1]);
        if ((pi != ai) && (pi != bi)) && ((pni != ai) && (pni != bi)) && px0 <= x1 && px1 >= x0
            && py0 <= y1 && py1 >= y0 && intersects(p.xy, p_next.xy, a.xy, b.xy) {
            assert(edge_hits(nodes@, r, k, a_i, b_i));
            return true;
        }
        assert(!edge_hits(nodes@, r, k, a_i, b_i));
        p_i = p.next;
        if p_i == a_i {
            proof {
                if k + 1 < n {
                    assert(r[k + 1] != r[0]);
                }
                assert forall|j: int| 0 <= j < n implies !#[trigger] edge_hits(
                    nodes@,
                    r,
                    j,
                    a_i,
                    b_i,
                ) by {
                    if j < k {
                    }
                }
            }
            return false;
        }
        proof {
            k = k + 1;
        }
    }
}


/// The validity test of a diagonal from `r[0]` to `b` (see `is_valid_diagonal`).
pub open spec fn valid_diagonal_spec(nodes: Seq<Node>, r: Seq<usize>, b: usize) -> bool {
    let a = r[0];
    let an = nodes[a as int].next;
    let ap = nodes[a as int].prev;
    let bn = nodes[b as int].next;
    let bp = nodes[b as int].prev;
    let axy = xy_of(nodes, a);
    let bxy = xy_of(nodes, b);
    &&& nodes[an as int].index != nodes[b as int].index
    &&& nodes[ap as int].index != nodes[b as int].index
    &&& !crosses_ring(nodes, r, a, b)
    &&& ((locally_inside_at(nodes, a, b) && locally_inside_at(nodes, b, a) && flips(
        nodes,
        r,
        axy,
        bxy,
        r.len() as int,
    ) % 2 == 1 && (tri_area(xy_of(nodes, ap), axy, xy_of(nodes, bp)) != 0 || tri_area(
        axy,
        xy_of(nodes, bp),
        bxy,
    ) != 0)) || (same_point(axy, bxy) && tri_area(xy_of(nodes, ap), axy, xy_of(nodes, an)) > 0
        && tri_area(xy_of(nodes, bp), bxy, xy_of(nodes, bn)) > 0))
}

/// check if a diagonal between two polygon nodes is valid (lies in polygon interior)
#[verifier::spinoff_prover]
pub fn is_valid_diagonal(
    nodes: &Vec<Node>,
    a_i: usize,
    b_i: usize,
    a_next_i: usize,
    a_prev_i: usize,
    Ghost(r): Ghost<Seq<usize>>,
) -> (res: bool)
    requires
        links_ok(nodes@),
        is_ring(nodes@, r),
        r[0] == a_i,
        b_i < nodes@.len(),
        a_next_i == nodes@[a_i as int].next,
        a_prev_i == nodes@[a_i as int].prev,
    ensures
        res == valid_diagonal_spec(nodes@, r, b_i),
{
    proof {
        lemma_ring_basics(nodes@, r, 0);
        assert(node_links_in(nodes@[b_i as int], nodes@.len() as int));
    }
    let a = nodes[a_i];
    let b = nodes[b_i];
    let a_next = nodes[a_next_i];
    let a_prev = nodes[a_prev_i];
    let b_next = nodes[b.next];
    let b_prev = nodes[b.prev];
    (((a_next.index != b.index) && (a_prev.index != b.index)) && !intersects_polygon(
        nodes,
        a_i,
        b_i,
        Ghost(r),
    )) && ((locally_inside(nodes, a_i, b_i) && locally_inside(nodes, b_i, a_i) && middle_inside(
        nodes,
        a_i,
        b_i,
        Ghost(r),
    )) && (area(a_prev.xy, a.xy, b_prev.xy) != 0 || area(a.xy, b_prev.xy, b.xy) != 0) || equals(
        a.xy,
        b.xy,
    ) && area(a_prev.xy, a.xy, a_next.xy) > 0 && area(b_prev.xy, b.xy, b_next.xy) > 0)
}

} // verus!
