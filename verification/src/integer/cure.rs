//! Curing small local self-intersections of a ring.
use vstd::prelude::*;

use crate::integer::filter::{
    filter_points, lemma_relink_step, lemma_z_covers_same_set, relink_frame, shrink_frame,
};
use crate::integer::geom::{equals, intersects, same_point, segments_intersect, tri_area, Point};
use crate::integer::nodes::{
    arena_ok, is_ring, lemma_ring_basics, lemma_ring_remove, lemma_rotate,
    lemma_z_covers_remove, lemma_z_remove, links_ok, node_links_in, remove_effect, remove_node,
    rotate, succ, z_covers, z_none, z_ok, zl_without, Node,
};
use crate::integer::polygon::{locally_inside, locally_inside_at, locally_inside_spec, xy_of};
use crate::integer::{lemma_triangles_refl, lemma_triangles_trans, push_triangle, triangles_appended, Index};

verus! {

/// A triangle with a repeated corner has no area.
pub proof fn lemma_area_repeated(p: Point, q: Point)
    ensures
        tri_area(p, q, q) == 0,
        tri_area(q, p, q) == 0,
{
    assert(tri_area(q, p, q) == 0) by (nonlinear_arith);
}

/// Unlinking a node keeps every link inside the arena and every vertex index.
pub proof fn lemma_arena_remove(m: Seq<Node>, n: Seq<Node>, pl: crate::integer::nodes::LinkInfo, dlen: int)
    requires
        arena_ok(m, dlen),
        pl.prev < m.len(),
        pl.next < m.len(),
        crate::integer::nodes::opt_in(pl.prev_z, m.len() as int),
        crate::integer::nodes::opt_in(pl.next_z, m.len() as int),
        remove_effect(m, n, pl),
    ensures
        arena_ok(n, dlen),
{
    crate::integer::filter::lemma_links_ok_remove(m, n, pl);
    assert forall|i: int| 0 <= i < n.len() implies (#[trigger] n[i]).index < dlen by {
        assert(m[i].index < dlen);
    }
}

/// The ring and list left after unlinking `q[0]` and `q[1]` of a ring of four
/// or more nodes, read from `q[3]` (the node after `q[2]`).
#[verifier::spinoff_prover]
proof fn lemma_cure_removed(
    o: Seq<Node>,
    m: Seq<Node>,
    m1: Seq<Node>,
    m2: Seq<Node>,
    r: Seq<usize>,
    zl: Seq<usize>,
    q: Seq<usize>,
    zq: Seq<usize>,
    pl1: crate::integer::nodes::LinkInfo,
    pl2: crate::integer::nodes::LinkInfo,
)
    requires
        relink_frame(o, m, r, zl, q, zq),
        is_ring(m, q),
        q.len() >= 4,
        z_ok(m, zq),
        z_covers(m, zq, q),
        pl1.prev == m[q[0] as int].prev,
        pl1.next == m[q[0] as int].next,
        pl1.prev_z == m[q[0] as int].prev_z,
        pl1.next_z == m[q[0] as int].next_z,
        remove_effect(m, m1, pl1),
        pl2.prev == m1[q[1] as int].prev,
        pl2.next == m1[q[1] as int].next,
        pl2.prev_z == m1[q[1] as int].prev_z,
        pl2.next_z == m1[q[1] as int].next_z,
        remove_effect(m1, m2, pl2),
    ensures
        ({
            let q2 = q.subrange(2, q.len() as int);
            let q3 = rotate(q2, 1);
            let zq2 = zl_without(zl_without(zq, q[0]), q[1]);
            &&& is_ring(m2, q3)
            &&& q3.len() == q.len() - 2
            &&& q3[0] == m[q[2] as int].next
            &&& q3[q3.len() - 1] == q[2]
            &&& z_ok(m2, zq2)
            &&& z_covers(m2, zq2, q3)
            &&& relink_frame(o, m2, r, zl, q3, zq2)
        }),
{
    let n = q.len() as int;
    lemma_ring_basics(m, q, 0);
    lemma_ring_basics(m, q, 2);
    let q1 = q.drop_first();
    lemma_ring_remove(m, m1, q, pl1);
    assert forall|x: usize| q1.contains(x) implies q.contains(x) by {
        let j = choose|j: int| 0 <= j < q1.len() && q1[j] == x;
        assert(q[j + 1] == x);
    }
    assert forall|x: usize| q.contains(x) && x != q[0] implies q1.contains(x) by {
        let j = choose|j: int| 0 <= j < q.len() && q[j] == x;
        assert(q1[j - 1] == x);
    }
    assert(zq.contains(q[0]) || z_none(m[q[0] as int]));
    lemma_relink_step(o, m, m1, r, zl, q, zq, q1, pl1);
    assert(!q1.contains(q[0]));
    lemma_z_covers_remove(m, m1, zq, pl1, q[0], q1);
    lemma_z_remove(m, m1, zq, pl1, q[0]);
    let zq1 = zl_without(zq, q[0]);
    assert(q1[0] == q[1]);
    lemma_ring_basics(m1, q1, 0);
    let q2 = q1.drop_first();
    assert(q2 =~= q.subrange(2, n));
    lemma_ring_remove(m1, m2, q1, pl2);
    assert forall|x: usize| q2.contains(x) implies q1.contains(x) by {
        let j = choose|j: int| 0 <= j < q2.len() && q2[j] == x;
        assert(q1[j + 1] == x);
    }
    assert forall|x: usize| q1.contains(x) && x != q1[0] implies q2.contains(x) by {
        let j = choose|j: int| 0 <= j < q1.len() && q1[j] == x;
        assert(q2[j - 1] == x);
    }
    assert(zq1.contains(q1[0]) || z_none(m1[q1[0] as int]));
    lemma_relink_step(o, m1, m2, r, zl, q1, zq1, q2, pl2);
    assert(!q2.contains(q1[0]));
    lemma_z_covers_remove(m1, m2, zq1, pl2, q1[0], q2);
    lemma_z_remove(m1, m2, zq1, pl2, q1[0]);
    let zq2 = zl_without(zq1, q[1]);
    lemma_rotate(m2, q2, 1);
    let q3 = rotate(q2, 1);
    assert(q3[0] == q[3]);
    assert(m[q[2] as int].next == q[succ(n, 2)]);
    assert(q3[q3.len() - 1] == q2[0]);
    assert forall|x: usize| q3.contains(x) implies q2.contains(x) by {
        assert(q3.to_set().contains(x));
    }
    assert forall|x: usize| q2.contains(x) implies q3.contains(x) by {
        assert(q2.to_set().contains(x));
    }
    lemma_z_covers_same_set(m2, zq2, q2, q3);
}

/// Curing needs four or more ring nodes: on smaller rings the corners before
/// and after the pair are the same node, or the diagonal is not locally inside.
proof fn lemma_cure_needs_four(m: Seq<Node>, q: Seq<usize>)
    requires
        is_ring(m, q),
        q.len() <= 3,
        !crate::integer::geom::same_point(
            xy_of(m, m[q[0] as int].prev),
            xy_of(m, m[m[q[0] as int].next as int].next),
        ),
    ensures
        !locally_inside_at(m, m[q[0] as int].prev, m[m[q[0] as int].next as int].next),
{
    let n = q.len() as int;
    lemma_ring_basics(m, q, 0);
    lemma_ring_basics(m, q, succ(n, 0));
    lemma_ring_basics(m, q, n - 1);
    if n == 2 {
        lemma_ring_basics(m, q, 1);
        let a = xy_of(m, q[1]);
        let b = xy_of(m, q[0]);
        lemma_area_repeated(a, b);
        lemma_area_repeated(b, a);
    }
}

/// Reading ring `q` from its second node keeps every fact the walk needs.
pub proof fn lemma_ring_advance(
    o: Seq<Node>,
    m: Seq<Node>,
    r: Seq<usize>,
    zl: Seq<usize>,
    q: Seq<usize>,
    zq: Seq<usize>,
)
    requires
        relink_frame(o, m, r, zl, q, zq),
        is_ring(m, q),
        q.len() >= 2,
        z_covers(m, zq, q),
    ensures
        ({
            let q2 = rotate(q, 1);
            &&& is_ring(m, q2)
            &&& q2.len() == q.len()
            &&& q2[0] == q[1]
            &&& forall|j: int| 0 <= j < q.len() ==> #[trigger] q2[j] == if j + 1 < q.len() {
                q[j + 1]
            } else {
                q[0]
            }
            &&& relink_frame(o, m, r, zl, q2, zq)
            &&& z_covers(m, zq, q2)
        }),
{
    let q2 = rotate(q, 1);
    lemma_rotate(m, q, 1);
    assert forall|x: usize| q2.contains(x) implies q.contains(x) by {
        assert(q2.to_set().contains(x));
    }
    assert forall|x: usize| q.contains(x) implies q2.contains(x) by {
        assert(q.to_set().contains(x));
    }
    lemma_z_covers_same_set(m, zq, q, q2);
}

/// The arena after the closing filter still indexes vertices below `dlen`
/// and is a relinking of the ring the curing started from.
proof fn lemma_cure_close(
    o: Seq<Node>,
    m3: Seq<Node>,
    n: Seq<Node>,
    r: Seq<usize>,
    zl: Seq<usize>,
    q: Seq<usize>,
    zq: Seq<usize>,
    q2: Seq<usize>,
    zq2: Seq<usize>,
    dlen: int,
)
    requires
        arena_ok(m3, dlen),
        m3.len() <= usize::MAX,
        links_ok(n),
        relink_frame(o, m3, r, zl, q, zq),
        shrink_frame(m3, n, q, zq, q2, zq2),
    ensures
        arena_ok(n, dlen),
        relink_frame(o, n, r, zl, q2, zq2),
{
    assert forall|i: int| 0 <= i < n.len() implies (#[trigger] n[i]).index < dlen by {
        assert(m3[i].index < dlen);
        let iu = i as usize;
        assert(crate::integer::filter::same_payload(n[iu as int], m3[iu as int]));
    }
    crate::integer::filter::lemma_relink_trans(o, m3, n, r, zl, q, zq, q2, zq2);
}

/// The `j`-th triangle that `new` has beyond `old`.
pub open spec fn appended_triangle<N>(old: Seq<N>, new: Seq<N>, j: int) -> Seq<N> {
    new.subrange(old.len() + 3 * j, old.len() + 3 * j + 3)
}

/// The cure at corner `p` of ring `r`: the ring ran `ap a p pn b bn` when
/// `tri`, the triangle `a p b`, was recorded; `a` and `b` are different
/// points, the edges `a p` and `pn b` cross, and the diagonal from `a` to
/// `b` lies locally inside the ring at both of its ends.
pub open spec fn cure_cut<N: Index>(
    nodes: Seq<Node>,
    r: Seq<usize>,
    tri: Seq<N>,
    a: usize,
    ap: usize,
    p: usize,
    pn: usize,
    b: usize,
    bn: usize,
) -> bool {
    let xy = |x: usize| nodes[x as int].xy;
    &&& r.contains(a)
    &&& r.contains(ap)
    &&& r.contains(p)
    &&& r.contains(pn)
    &&& r.contains(b)
    &&& r.contains(bn)
    &&& tri == seq![
        N::from_nat(nodes[a as int].index as nat),
        N::from_nat(nodes[p as int].index as nat),
        N::from_nat(nodes[b as int].index as nat),
    ]
    &&& !same_point(xy(a), xy(b))
    &&& segments_intersect(xy(a), xy(p), xy(pn), xy(b))
    &&& locally_inside_spec(xy(ap), xy(a), xy(p), xy(b))
    &&& locally_inside_spec(xy(pn), xy(b), xy(bn), xy(a))
}

/// `tri` is a triangle that curing records at some corner of ring `r`.
pub open spec fn cured_corner<N: Index>(nodes: Seq<Node>, r: Seq<usize>, tri: Seq<N>) -> bool {
    exists|a: usize, ap: usize, p: usize, pn: usize, b: usize, bn: usize|
        #[trigger] cure_cut(nodes, r, tri, a, ap, p, pn, b, bn)
}

/// go through all polygon nodes and cure small local self-intersections
///
/// Each cure records one triangle and takes two nodes off the ring, so the
/// ring left and the triangles recorded together account for at most the
/// nodes of `r`; the ring left has been filtered of duplicate and collinear
/// points.
///
/// Returns the node filtering ended on, the ring left (read from that node)
/// and the z-order list left.
#[verifier::spinoff_prover]
pub fn cure_local_intersections<N: Index>(
    nodes: &mut Vec<Node>,
    start_i: usize,
    triangles: &mut Vec<N>,
    Ghost(r): Ghost<Seq<usize>>,
    Ghost(zl): Ghost<Seq<usize>>,
    Ghost(dlen): Ghost<nat>,
) -> (res: (usize, Ghost<Seq<usize>>, Ghost<Seq<usize>>))
    requires
        arena_ok(old(nodes)@, dlen as int),
        is_ring(old(nodes)@, r),
        r[0] == start_i,
        z_ok(old(nodes)@, zl),
        z_covers(old(nodes)@, zl, r),
    ensures
        arena_ok(final(nodes)@, dlen as int),
        is_ring(final(nodes)@, res.1@),
        res.1@[0] == res.0,
        res.1@.len() <= r.len(),
        z_ok(final(nodes)@, res.2@),
        r.len() >= 2 ==> z_covers(final(nodes)@, res.2@, res.1@),
        relink_frame(old(nodes)@, final(nodes)@, r, zl, res.1@, res.2@),
        triangles_appended(old(triangles)@, final(triangles)@, dlen),
        res.1@.len() + 2 * ((final(triangles)@.len() - old(triangles)@.len()) / 3) <= r.len(),
        res.1@.len() == 1 || forall|k: int|
            0 <= k < res.1@.len() ==> #[trigger] crate::integer::filter::filter_keeps(
                final(nodes)@,
                res.1@[k],
            ),
        forall|j: int|
            0 <= j < (final(triangles)@.len() - old(triangles)@.len()) / 3 ==> #[trigger] cured_corner(
                old(nodes)@,
                r,
                appended_triangle(old(triangles)@, final(triangles)@, j),
            ),
{
    let ghost o = nodes@;
    let ghost ot = triangles@;
    let mut start_i = start_i;
    let mut p_i = start_i;
    let ghost mut q = r;
    let ghost mut zq = zl;
    let ghost mut s: int = 0;
    let ghost mut c: int = 0;
    proof {
        crate::integer::filter::lemma_shrink_refl(o, r, zl);
        lemma_triangles_refl(ot, dlen);
    }
    loop
        invariant
            arena_ok(nodes@, dlen as int),
            o == old(nodes)@,
            ot == old(triangles)@,
            is_ring(nodes@, q),
            q[0] == p_i,
            q.len() <= r.len(),
            0 <= s < q.len(),
            q[s] == start_i,
            z_ok(nodes@, zq),
            z_covers(nodes@, zq, q),
            relink_frame(o, nodes@, r, zl, q, zq),
            triangles_appended(ot, triangles@, dlen),
            q.len() < r.len() ==> q.len() >= 2,
            0 <= c,
            triangles@.len() == ot.len() + 3 * c,
            q.len() + 2 * c == r.len(),
            forall|j: int|
                0 <= j < c ==> #[trigger] cured_corner(o, r, appended_triangle(ot, triangles@, j)),
        decreases q.len(), if s == 0 {
            q.len() as int
        } else {
            s
        },
    {
        let ghost m = nodes@;
        let ghost n = q.len() as int;
        proof {
            lemma_ring_basics(m, q, 0);
            lemma_ring_basics(m, q, succ(n, 0));
            lemma_ring_basics(m, q, succ(n, succ(n, 0)));
            lemma_ring_basics(m, q, n - 1);
        }
        let p = nodes[p_i];
        let p_next_i = p.next;
        let p_next = nodes[p_next_i];
        let b_i = p_next.next;
        let a_i = p.prev;
        let a = nodes[a_i];
        let b = nodes[b_i];
        if !equals(a.xy, b.xy) && intersects(a.xy, p.xy, p_next.xy, b.xy) && locally_inside(
            nodes,
            a_i,
            b_i,
        ) && locally_inside(nodes, b_i, a_i) {
            proof {
                assert(n >= 4) by {
                    if n <= 3 {
                        lemma_cure_needs_four(m, q);
                    }
                }
                assert(m[a_i as int].index < dlen);
                assert(m[p_i as int].index < dlen);
                assert(m[b_i as int].index < dlen);
            }
            let ghost t0 = triangles@;
            push_triangle(triangles, a.index, p.index, b.index, Ghost(dlen));
            proof {
                lemma_triangles_trans(ot, t0, triangles@, dlen);
                let t1 = triangles@;
                assert forall|j: int| 0 <= j < c + 1 implies #[trigger] cured_corner(
                    o,
                    r,
                    appended_triangle(ot, t1, j),
                ) by {
                    if j < c {
                        assert(appended_triangle(ot, t1, j) =~= appended_triangle(ot, t0, j));
                    } else {
                        assert(appended_triangle(ot, t1, j) =~= seq![
                            N::from_nat(a.index as nat),
                            N::from_nat(p.index as nat),
                            N::from_nat(b.index as nat),
                        ]);
                        assert(q.contains(q[n - 1]));
                        assert(q.contains(q[0]));
                        assert(q.contains(q[1]));
                        assert(q.contains(q[2]));
                        assert(r.contains(a_i) && r.contains(p_i) && r.contains(p_next_i) && r.contains(
                            b_i,
                        ));
                        assert(crate::integer::filter::same_payload(m[a_i as int], o[a_i as int]));
                        assert(crate::integer::filter::same_payload(m[p_i as int], o[p_i as int]));
                        assert(crate::integer::filter::same_payload(
                            m[p_next_i as int],
                            o[p_next_i as int],
                        ));
                        assert(crate::integer::filter::same_payload(m[b_i as int], o[b_i as int]));
                        let ap = m[a_i as int].prev;
                        let bn = m[b_i as int].next;
                        lemma_ring_basics(m, q, n - 1);
                        lemma_ring_basics(m, q, 2);
                        assert(q.contains(q[n - 2]));
                        assert(q.contains(q[succ(n, 2)]));
                        assert(r.contains(ap) && r.contains(bn));
                        assert(crate::integer::filter::same_payload(m[ap as int], o[ap as int]));
                        assert(crate::integer::filter::same_payload(m[bn as int], o[bn as int]));
                        assert(cure_cut(
                            o,
                            r,
                            appended_triangle(ot, t1, j),
                            a_i,
                            ap,
                            p_i,
                            p_next_i,
                            b_i,
                            bn,
                        ));
                    }
                }
                c = c + 1;
            }
            let b_next_i = b.next;
            let pl1 = p.link_info();
            remove_node(nodes, pl1);
            let ghost m1 = nodes@;
            proof {
                lemma_arena_remove(m, m1, pl1, dlen as int);
                lemma_ring_basics(m, q, 1);
            }
            let pnl = nodes[p_next_i].link_info();
            proof {
                assert(node_links_in(m1[p_next_i as int], m1.len() as int));
            }
            remove_node(nodes, pnl);
            proof {
                lemma_arena_remove(m1, nodes@, pnl, dlen as int);
                lemma_cure_removed(o, m, m1, nodes@, r, zl, q, zq, pl1, pnl);
                q = rotate(q.subrange(2, n), 1);
                zq = zl_without(zl_without(zq, p_i), p_next_i);
                s = q.len() - 1;
                assert(q[0] != q[s]);
            }
            p_i = b_next_i;
            start_i = b_i;
        } else {
            p_i = p.next;
            proof {
                if n >= 2 {
                    lemma_ring_advance(o, m, r, zl, q, zq);
                    let q2 = rotate(q, 1);
                    let s2 = if s == 0 {
                        n - 1
                    } else {
                        s - 1
                    };
                    assert(q2[s2] == q[s]);
                    q = q2;
                    s = s2;
                } else {
                    s = 0;
                }
            }
        }
        if p_i == start_i {
            let ghost m3 = nodes@;
            proof {
                assert(nodes.len() == m3.len());
            }
            let res = filter_points(nodes, p_i, None, Ghost(q), Ghost(zq));
            proof {
                lemma_cure_close(o, m3, nodes@, r, zl, q, zq, res.1@, res.2@, dlen as int);
                assert((triangles@.len() - ot.len()) / 3 == c);
            }
            return res;
        }
    }
}

} // verus!
