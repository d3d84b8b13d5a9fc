//! Removing duplicate and collinear vertices from a ring.
use vstd::prelude::*;

use crate::integer::geom::{area, equals, same_point, tri_area};
use crate::integer::nodes::{
    is_ring, lemma_ring_basics, lemma_ring_remove, lemma_ring_remove_single, lemma_rotate,
    lemma_rotate_step, lemma_rotate_zero, lemma_z_covers_remove, lemma_z_remove, links_ok,
    node_links_in, remove_effect, remove_node, rotate, succ, z_covers, z_none, z_ok, zl_without,
    LinkInfo, Node,
};
use crate::integer::polygon::xy_of;

verus! {

/// Whether filtering keeps node `x`: it is a Steiner point, or it is neither
/// equal to its successor nor collinear with its neighbours.
pub open spec fn filter_keeps(nodes: Seq<Node>, x: usize) -> bool {
    let nd = nodes[x as int];
    nd.steiner || !(same_point(nd.xy, xy_of(nodes, nd.next)) || tri_area(
        xy_of(nodes, nd.prev),
        nd.xy,
        xy_of(nodes, nd.next),
    ) == 0)
}

/// The vertex data of a node, which no relinking changes.
pub open spec fn same_payload(a: Node, b: Node) -> bool {
    a.index == b.index && a.steiner == b.steiner && a.z == b.z && a.xy == b.xy
}

/// How unlinking nodes of ring `r` (whose z-order list is `zl`) may change the
/// arena: only ring links of nodes of `r` and z-order links of nodes of `zl`
/// change; `r2` keeps some of the nodes of `r`; the nodes of the list outside
/// `r` stay in it, and a node that leaves the list stays in the ring only if
/// it was on `r`.
pub open spec fn relink_frame(
    old: Seq<Node>,
    new: Seq<Node>,
    r: Seq<usize>,
    zl: Seq<usize>,
    r2: Seq<usize>,
    zl2: Seq<usize>,
) -> bool {
    &&& new.len() == old.len()
    &&& forall|i: usize| i < old.len() ==> same_payload(#[trigger] new[i as int], old[i as int])
    &&& forall|i: usize|
        i < old.len() && !r.contains(i) ==> (#[trigger] new[i as int]).prev == old[i as int].prev
            && new[i as int].next == old[i as int].next
    &&& forall|i: usize|
        i < old.len() && !r.contains(i) && !zl.contains(i) ==> #[trigger] new[i as int] == old[i as int]
    &&& forall|i: usize|
        i < old.len() && !zl.contains(i) ==> (#[trigger] new[i as int]).prev_z == old[i as int].prev_z
            && new[i as int].next_z == old[i as int].next_z
    &&& forall|x: usize| r2.contains(x) ==> r.contains(x)
    &&& forall|x: usize|
        zl2.contains(x) ==> zl.contains(x) && (r2.contains(x) || !r.contains(x))
    &&& forall|x: usize| zl.contains(x) && !r.contains(x) ==> zl2.contains(x)
}

/// A `relink_frame` in which every node that left the ring was not a Steiner point.
pub open spec fn shrink_frame(
    old: Seq<Node>,
    new: Seq<Node>,
    r: Seq<usize>,
    zl: Seq<usize>,
    r2: Seq<usize>,
    zl2: Seq<usize>,
) -> bool {
    &&& relink_frame(old, new, r, zl, r2, zl2)
    &&& forall|x: usize| r.contains(x) && !r2.contains(x) ==> !old[x as int].steiner
}

/// Unlinking the first node `p` of ring `q` extends a relinking of `r`.
pub proof fn lemma_relink_step(
    o: Seq<Node>,
    m: Seq<Node>,
    n: Seq<Node>,
    r: Seq<usize>,
    zl: Seq<usize>,
    q: Seq<usize>,
    zq: Seq<usize>,
    q2: Seq<usize>,
    pl: LinkInfo,
)
    requires
        relink_frame(o, m, r, zl, q, zq),
        is_ring(m, q),
        z_ok(m, zq),
        zq.contains(q[0]) || z_none(m[q[0] as int]),
        pl.prev == m[q[0] as int].prev,
        pl.next == m[q[0] as int].next,
        pl.prev_z == m[q[0] as int].prev_z,
        pl.next_z == m[q[0] as int].next_z,
        remove_effect(m, n, pl),
        forall|x: usize| q2.contains(x) ==> q.contains(x),
        forall|x: usize| q.contains(x) && x != q[0] ==> q2.contains(x),
    ensures
        relink_frame(o, n, r, zl, q2, zl_without(zq, q[0])),
{
    let p = q[0];
    lemma_ring_basics(m, q, 0);
    lemma_z_remove(m, n, zq, pl, p);
    let len = q.len() as int;
    assert(q.contains(q[len - 1]));
    assert(q.contains(q[succ(len, 0)]));
    assert(q.contains(p));
    assert forall|i: usize| i < o.len() && !r.contains(i) implies (#[trigger] n[i as int]).prev
        == o[i as int].prev && n[i as int].next == o[i as int].next by {
        assert(!q.contains(i));
    }
    assert forall|i: usize| i < o.len() && !zl.contains(i) implies (#[trigger] n[i as int]).prev_z
        == o[i as int].prev_z && n[i as int].next_z == o[i as int].next_z by {
        assert(!zq.contains(i));
        if zq.contains(p) {
            let k = zq.index_of(p);
            crate::integer::nodes::lemma_z_basics(m, zq, k);
            if k > 0 {
                assert(zq.contains(zq[k - 1]));
            }
            if k + 1 < zq.len() {
                assert(zq.contains(zq[k + 1]));
            }
        }
    }
    assert forall|i: usize| i < o.len() && !r.contains(i) && !zl.contains(i) implies #[trigger] n[i
        as int] == o[i as int] by {
        assert(!q.contains(i));
        assert(!zq.contains(i));
        if zq.contains(p) {
            let k = zq.index_of(p);
            crate::integer::nodes::lemma_z_basics(m, zq, k);
            if k > 0 {
                assert(zq.contains(zq[k - 1]));
            }
            if k + 1 < zq.len() {
                assert(zq.contains(zq[k + 1]));
            }
        }
    }
}

pub proof fn lemma_shrink_refl(nodes: Seq<Node>, r: Seq<usize>, zl: Seq<usize>)
    ensures
        shrink_frame(nodes, nodes, r, zl, r, zl),
{
}

/// Relinking `q` (which a relinking of `r` left) is a relinking of `r`.
pub proof fn lemma_relink_trans(
    o: Seq<Node>,
    m: Seq<Node>,
    n: Seq<Node>,
    r: Seq<usize>,
    zl: Seq<usize>,
    q: Seq<usize>,
    zq: Seq<usize>,
    q2: Seq<usize>,
    zq2: Seq<usize>,
)
    requires
        relink_frame(o, m, r, zl, q, zq),
        relink_frame(m, n, q, zq, q2, zq2),
    ensures
        relink_frame(o, n, r, zl, q2, zq2),
{
    assert forall|i: usize| i < o.len() implies same_payload(#[trigger] n[i as int], o[i as int]) by {
        assert(same_payload(m[i as int], o[i as int]));
        assert(same_payload(n[i as int], m[i as int]));
    }
    assert forall|i: usize| i < o.len() && !r.contains(i) implies (#[trigger] n[i as int]).prev
        == o[i as int].prev && n[i as int].next == o[i as int].next by {
        assert(!q.contains(i));
        assert(m[i as int].prev == o[i as int].prev);
        assert(n[i as int].prev == m[i as int].prev);
    }
    assert forall|i: usize| i < o.len() && !r.contains(i) && !zl.contains(i) implies #[trigger] n[i
        as int] == o[i as int] by {
        assert(!q.contains(i));
        assert(!zq.contains(i));
        assert(m[i as int] == o[i as int]);
        assert(n[i as int] == m[i as int]);
    }
    assert forall|i: usize| i < o.len() && !zl.contains(i) implies (#[trigger] n[i as int]).prev_z
        == o[i as int].prev_z && n[i as int].next_z == o[i as int].next_z by {
        assert(!zq.contains(i));
        assert(m[i as int].prev_z == o[i as int].prev_z);
        assert(n[i as int].prev_z == m[i as int].prev_z);
    }
}

/// Unlinking the first node `p` of ring `q`, not a Steiner point, extends a shrink of `r`.
pub proof fn lemma_shrink_step(
    o: Seq<Node>,
    m: Seq<Node>,
    n: Seq<Node>,
    r: Seq<usize>,
    zl: Seq<usize>,
    q: Seq<usize>,
    zq: Seq<usize>,
    q2: Seq<usize>,
    pl: LinkInfo,
)
    requires
        shrink_frame(o, m, r, zl, q, zq),
        is_ring(m, q),
        z_ok(m, zq),
        zq.contains(q[0]) || z_none(m[q[0] as int]),
        !m[q[0] as int].steiner,
        pl.prev == m[q[0] as int].prev,
        pl.next == m[q[0] as int].next,
        pl.prev_z == m[q[0] as int].prev_z,
        pl.next_z == m[q[0] as int].next_z,
        remove_effect(m, n, pl),
        forall|x: usize| q2.contains(x) ==> q.contains(x),
        forall|x: usize| q.contains(x) && x != q[0] ==> q2.contains(x),
    ensures
        shrink_frame(o, n, r, zl, q2, zl_without(zq, q[0])),
{
    lemma_relink_step(o, m, n, r, zl, q, zq, q2, pl);
    assert forall|x: usize| r.contains(x) && !q2.contains(x) implies !o[x as int].steiner by {
        if q.contains(x) {
            assert(x == q[0]);
        }
    }
}

/// A ring read from another node is covered by the same z-order list.
pub proof fn lemma_z_covers_same_set(nodes: Seq<Node>, zl: Seq<usize>, q: Seq<usize>, q2: Seq<usize>)
    requires
        z_covers(nodes, zl, q),
        forall|x: usize| q2.contains(x) ==> q.contains(x),
    ensures
        z_covers(nodes, zl, q2),
{
    assert forall|k: int| 0 <= k < q2.len() implies zl.contains(#[trigger] q2[k]) || z_none(
        nodes[q2[k] as int],
    ) by {
        assert(q2.contains(q2[k]));
        let j = choose|j: int| 0 <= j < q.len() && q[j] == q2[k];
        assert(zl.contains(q[j]) || z_none(nodes[q[j] as int]));
    }
}

pub proof fn lemma_links_ok_remove(m: Seq<Node>, n: Seq<Node>, pl: LinkInfo)
    requires
        links_ok(m),
        pl.prev < m.len(),
        pl.next < m.len(),
        crate::integer::nodes::opt_in(pl.prev_z, m.len() as int),
        crate::integer::nodes::opt_in(pl.next_z, m.len() as int),
        remove_effect(m, n, pl),
    ensures
        links_ok(n),
{
    assert forall|i: int| 0 <= i < n.len() implies node_links_in(#[trigger] n[i], n.len() as int) by {
        assert(node_links_in(m[i], m.len() as int));
    }
}

/// The ring and list left after `filter_points` unlinked the first node of `q`
/// (of three or more nodes), read from its predecessor.
#[verifier::spinoff_prover]
proof fn lemma_filter_removed(
    old_nodes: Seq<Node>,
    m: Seq<Node>,
    nn: Seq<Node>,
    r: Seq<usize>,
    zl: Seq<usize>,
    q: Seq<usize>,
    zq: Seq<usize>,
    pl: LinkInfo,
)
    requires
        shrink_frame(old_nodes, m, r, zl, q, zq),
        is_ring(m, q),
        q.len() >= 3,
        z_ok(m, zq),
        zq.contains(q[0]) || z_none(m[q[0] as int]),
        !m[q[0] as int].steiner,
        pl.prev == m[q[0] as int].prev,
        pl.next == m[q[0] as int].next,
        pl.prev_z == m[q[0] as int].prev_z,
        pl.next_z == m[q[0] as int].next_z,
        remove_effect(m, nn, pl),
        r.len() >= 2 ==> z_covers(m, zq, q),
        forall|k: int| 0 <= k < q.len() ==> q[k] < m.len(),
    ensures
        ({
            let q3 = rotate(q.drop_first(), q.len() - 2);
            let zq2 = zl_without(zq, q[0]);
            &&& is_ring(nn, q3)
            &&& q3[0] == m[q[0] as int].prev
            &&& q3.len() == q.len() - 1
            &&& shrink_frame(old_nodes, nn, r, zl, q3, zq2)
            &&& r.len() >= 2 ==> z_covers(nn, zq2, q3)
        }),
{
    let ql = q.len() as int;
    lemma_ring_remove(m, nn, q, pl);
    lemma_ring_basics(m, q, 0);
    let q2 = q.drop_first();
    assert forall|x: usize| q2.contains(x) implies q.contains(x) by {
        let j = choose|j: int| 0 <= j < q2.len() && q2[j] == x;
        assert(q[j + 1] == x);
    }
    assert forall|x: usize| q.contains(x) && x != q[0] implies q2.contains(x) by {
        let j = choose|j: int| 0 <= j < q.len() && q[j] == x;
        assert(q2[j - 1] == x);
    }
    lemma_shrink_step(old_nodes, m, nn, r, zl, q, zq, q2, pl);
    assert(!q2.contains(q[0]));
    if r.len() >= 2 {
        lemma_z_covers_remove(m, nn, zq, pl, q[0], q2);
    }
    let k = ql - 2;
    lemma_rotate(nn, q2, k);
    let q3 = rotate(q2, k);
    let zq2 = zl_without(zq, q[0]);
    assert(q3[0] == q[ql - 1]);
    assert forall|x: usize| q3.contains(x) implies q2.contains(x) by {
        assert(q3.to_set().contains(x));
    }
    assert forall|x: usize| q2.contains(x) implies q3.contains(x) by {
        assert(q2.to_set().contains(x));
    }
    if r.len() >= 2 {
        lemma_z_covers_same_set(nn, zq2, q2, q3);
    }
}

/// The ring `q` read from its second node.
proof fn lemma_filter_advance(
    old_nodes: Seq<Node>,
    m: Seq<Node>,
    r: Seq<usize>,
    zl: Seq<usize>,
    q: Seq<usize>,
    zq: Seq<usize>,
)
    requires
        shrink_frame(old_nodes, m, r, zl, q, zq),
        is_ring(m, q),
        q.len() >= 2,
        r.len() >= 2 ==> z_covers(m, zq, q),
    ensures
        ({
            let q2 = rotate(q, 1);
            &&& is_ring(m, q2)
            &&& q2.len() == q.len()
            &&& q2[0] == q[1]
            &&& forall|j: int| 0 <= j < q.len() ==> #[trigger] q2[j] == if j + 1 < q.len() {
                q[j + 1]
            } else {
                q[0]
            }
            &&& shrink_frame(old_nodes, m, r, zl, q2, zq)
            &&& r.len() >= 2 ==> z_covers(m, zq, q2)
        }),
{
    let q2 = rotate(q, 1);
    lemma_rotate(m, q, 1);
    assert forall|x: usize| q2.contains(x) implies q.contains(x) by {
        assert(q2.to_set().contains(x));
    }
    assert forall|x: usize| q.contains(x) implies q2.contains(x) by {
        assert(q.to_set().contains(x));
    }
    if r.len() >= 2 {
        lemma_z_covers_same_set(m, zq, q, q2);
    }
}

/// The positions `i`, `j`, `k` lie in this cyclic order.
pub open spec fn cyc3(i: int, j: int, k: int) -> bool {
    (i < j && j < k) || (j < k && k < i) || (k < i && i < j)
}

/// Any three nodes of `s` come in `s` in the same cyclic order as in ring
/// `r`: `s` keeps the order of `r`.
pub open spec fn keeps_cyclic(r: Seq<usize>, s: Seq<usize>) -> bool {
    forall|a: usize, b: usize, c: usize|
        s.contains(a) && s.contains(b) && s.contains(c) && #[trigger] cyc3(
            s.index_of(a),
            s.index_of(b),
            s.index_of(c),
        ) ==> cyc3(r.index_of(a), r.index_of(b), r.index_of(c))
}

proof fn lemma_index_unique(t: Seq<usize>, x: usize, j: int)
    requires
        t.no_duplicates(),
        0 <= j < t.len(),
        t[j] == x,
    ensures
        t.index_of(x) == j,
{
    assert(t.contains(x));
}

/// Reading `s` from another node keeps the order of `r`.
pub proof fn lemma_keeps_cyclic_rotate(r: Seq<usize>, s: Seq<usize>, k: int)
    requires
        s.no_duplicates(),
        keeps_cyclic(r, s),
        0 <= k < s.len(),
    ensures
        keeps_cyclic(r, rotate(s, k)),
{
    let n = s.len() as int;
    let t = rotate(s, k);
    assert forall|x: usize| t.contains(x) implies s.contains(x) && t.index_of(x) == (if s.index_of(x)
        >= k {
        s.index_of(x) - k
    } else {
        s.index_of(x) - k + n
    }) by {
        let j = choose|j: int| 0 <= j < t.len() && t[j] == x;
        let i = if k + j < n {
            k + j
        } else {
            k + j - n
        };
        assert(t[j] == s[i]);
        lemma_index_unique(s, x, i);
        assert(t.no_duplicates()) by {
            assert forall|a: int, b: int| 0 <= a < b < n implies t[a] != t[b] by {
                let ia = if k + a < n {
                    k + a
                } else {
                    k + a - n
                };
                let ib = if k + b < n {
                    k + b
                } else {
                    k + b - n
                };
                assert(t[a] == s[ia] && t[b] == s[ib]);
            }
        }
        lemma_index_unique(t, x, j);
    }
    assert forall|a: usize, b: usize, c: usize|
        t.contains(a) && t.contains(b) && t.contains(c) && #[trigger] cyc3(
            t.index_of(a),
            t.index_of(b),
            t.index_of(c),
        ) implies cyc3(r.index_of(a), r.index_of(b), r.index_of(c)) by {
        assert(cyc3(s.index_of(a), s.index_of(b), s.index_of(c)));
    }
}

/// Leaving out the first node of `s` keeps the order of `r`.
pub proof fn lemma_keeps_cyclic_drop(r: Seq<usize>, s: Seq<usize>)
    requires
        s.no_duplicates(),
        keeps_cyclic(r, s),
        s.len() >= 1,
    ensures
        keeps_cyclic(r, s.drop_first()),
{
    let t = s.drop_first();
    assert forall|x: usize| t.contains(x) implies s.contains(x) && t.index_of(x) == s.index_of(x) - 1 by {
        let j = choose|j: int| 0 <= j < t.len() && t[j] == x;
        assert(t[j] == s[j + 1]);
        lemma_index_unique(s, x, j + 1);
        lemma_index_unique(t, x, j);
    }
    assert forall|a: usize, b: usize, c: usize|
        t.contains(a) && t.contains(b) && t.contains(c) && #[trigger] cyc3(
            t.index_of(a),
            t.index_of(b),
            t.index_of(c),
        ) implies cyc3(r.index_of(a), r.index_of(b), r.index_of(c)) by {
        assert(cyc3(s.index_of(a), s.index_of(b), s.index_of(c)));
    }
}

/// Whether the nodes of `q` that the walk has checked keep (see `filter_points`).
pub open spec fn checked_keep(nodes: Seq<Node>, q: Seq<usize>, c: int) -> bool {
    forall|j: int| q.len() - c <= j < q.len() ==> #[trigger] filter_keeps(nodes, q[j])
}

/// eliminate colinear or duplicate points
///
/// Returns the node the walk ended on, the ring left (read from that node)
/// and the z-order list left.
#[verifier::spinoff_prover]
pub fn filter_points(
    nodes: &mut Vec<Node>,
    start_i: usize,
    end_i: Option<usize>,
    Ghost(r): Ghost<Seq<usize>>,
    Ghost(zl): Ghost<Seq<usize>>,
) -> (res: (usize, Ghost<Seq<usize>>, Ghost<Seq<usize>>))
    requires
        links_ok(old(nodes)@),
        is_ring(old(nodes)@, r),
        r[0] == start_i,
        end_i matches Some(e) ==> r.contains(e),
        z_ok(old(nodes)@, zl),
        z_covers(old(nodes)@, zl, r),
    ensures
        links_ok(final(nodes)@),
        is_ring(final(nodes)@, res.1@),
        res.1@[0] == res.0,
        res.1@.len() <= r.len(),
        z_ok(final(nodes)@, res.2@),
        r.len() >= 2 ==> z_covers(final(nodes)@, res.2@, res.1@),
        shrink_frame(old(nodes)@, final(nodes)@, r, zl, res.1@, res.2@),
        keeps_cyclic(r, res.1@),
        res.1@.len() == 1 || (forall|k: int|
            0 <= k < res.1@.len() ==> #[trigger] filter_keeps(final(nodes)@, res.1@[k])) || (
        end_i matches Some(e) && e != start_i && res.0 == e && final(nodes)@ == old(nodes)@
            && res.1@.len() == r.len() && forall|j: int|
            0 <= j < r.index_of(e) ==> #[trigger] filter_keeps(old(nodes)@, r[j])),
{
    let ghost old_nodes = nodes@;
    let ghost n0 = r.len() as int;
    let ghost full0 = match end_i {
        Some(e) => e == start_i,
        None => true,
    };
    let ghost mut full = full0;
    let ghost pe: int = match end_i {
        Some(e) => r.index_of(e),
        None => 0,
    };
    let mut end_node = match end_i {
        Some(e) => e,
        None => start_i,
    };
    let mut p_i = start_i;
    let ghost mut q = r;
    let ghost mut zq = zl;
    let ghost mut d: int = if full {
        0
    } else {
        pe
    };
    let ghost mut c: int = 0;
    proof {
        lemma_shrink_refl(nodes@, r, zl);
        lemma_rotate_zero(r);
        if !full {
            assert(0 <= pe < n0 && r[pe] == end_node);
            assert(pe != 0);
        }
    }
    loop
        invariant
            links_ok(nodes@),
            is_ring(nodes@, q),
            q[0] == p_i,
            q.len() <= r.len(),
            0 <= d < q.len(),
            q[d] == end_node,
            z_ok(nodes@, zq),
            r.len() >= 2 ==> z_covers(nodes@, zq, q),
            q.len() == 1 ==> r.len() == 1 && z_covers(nodes@, zq, q),
            shrink_frame(old_nodes, nodes@, r, zl, q, zq),
            keeps_cyclic(r, q),
            n0 == r.len(),
            old_nodes == old(nodes)@,
            is_ring(old_nodes, r),
            r[0] == start_i,
            0 <= c,
            full0 == (match end_i {
                Some(e) => e == start_i,
                None => true,
            }),
            full0 ==> full,
            full ==> (if d == 0 {
                c == 0
            } else {
                c == q.len() - d
            }),
            full ==> checked_keep(nodes@, q, c),
            !full ==> {
                &&& end_i == Some(end_node)
                &&& end_node != start_i
                &&& pe == r.index_of(end_node)
                &&& end_node == r[pe]
                &&& 0 < pe < n0
                &&& nodes@ == old_nodes
                &&& q == rotate(r, c)
                &&& c < pe
                &&& d == pe - c
                &&& forall|j: int| 0 <= j < c ==> #[trigger] filter_keeps(old_nodes, r[j])
            },
        decreases q.len(), if d == 0 {
            q.len() as int
        } else {
            d
        },
    {
        let ghost m = nodes@;
        let ghost ql = q.len() as int;
        proof {
            lemma_ring_basics(m, q, 0);
            assert(q.contains(q[0]));
            assert(node_links_in(m[p_i as int], m.len() as int));
        }
        let p = nodes[p_i];
        let p_next = nodes[p.next];
        let p_prev = nodes[p.prev];
        if !p.steiner && (equals(p.xy, p_next.xy) || area(p_prev.xy, p.xy, p_next.xy) == 0) {
            let pl = p.link_info();
            proof {
                if r.len() < 2 {
                    assert(ql == 1);
                }
                assert(zq.contains(q[0]) || z_none(m[q[0] as int]));
            }
            let (prev_i, next_i) = remove_node(nodes, pl);
            let ghost nn = nodes@;
            let ghost zq2 = zl_without(zq, p_i);
            proof {
                lemma_links_ok_remove(m, nn, pl);
                lemma_z_remove(m, nn, zq, pl, p_i);
            }
            p_i = prev_i;
            end_node = prev_i;
            if p_i == next_i {
                proof {
                    if ql == 1 {
                        lemma_ring_remove_single(m, nn, q, pl);
                        lemma_shrink_step(old_nodes, m, nn, r, zl, q, zq, q, pl);
                        assert(q[0] == prev_i);
                    } else {
                        lemma_ring_remove(m, nn, q, pl);
                        let q2 = q.drop_first();
                        if ql > 2 {
                            assert(q[ql - 1] != q[1]);
                        }
                        assert(ql == 2);
                        assert(q2[0] == q[1]);
                        assert forall|x: usize| q2.contains(x) implies q.contains(x) by {
                            let j = choose|j: int| 0 <= j < q2.len() && q2[j] == x;
                            assert(q[j + 1] == x);
                        }
                        assert forall|x: usize| q.contains(x) && x != q[0] implies q2.contains(x) by {
                            let j = choose|j: int| 0 <= j < q.len() && q[j] == x;
                            assert(q2[j - 1] == x);
                        }
                        lemma_shrink_step(old_nodes, m, nn, r, zl, q, zq, q2, pl);
                        assert(!q2.contains(q[0]));
                        lemma_z_covers_remove(m, nn, zq, pl, q[0], q2);
                    }
                }
                proof {
                    if q.len() != 1 {
                        lemma_keeps_cyclic_drop(r, q);
                    }
                }
                let ghost rq = if q.len() == 1 {
                    q
                } else {
                    q.drop_first()
                };
                assert(shrink_frame(old_nodes, nodes@, r, zl, rq, zq2));
                return (end_node, Ghost(
                    if q.len() == 1 {
                        q
                    } else {
                        q.drop_first()
                    },
                ), Ghost(zq2));
            }
            proof {
                assert(ql >= 3) by {
                    lemma_ring_basics(m, q, 0);
                    if ql == 2 {
                        assert(q[1] == q[ql - 1]);
                    }
                }
                lemma_filter_removed(old_nodes, m, nn, r, zl, q, zq, pl);
                let q3 = rotate(q.drop_first(), ql - 2);
                lemma_keeps_cyclic_drop(r, q);
                lemma_keeps_cyclic_rotate(r, q.drop_first(), ql - 2);
                q = q3;
                zq = zq2;
                d = 0;
                c = 0;
                full = true;
            }
        } else {
            proof {
                assert(filter_keeps(m, q[0]));
            }
            p_i = p.next;
            if p_i == end_node {
                proof {
                    let q2 = rotate(q, succ(ql, 0));
                    lemma_rotate(m, q, succ(ql, 0));
                    lemma_keeps_cyclic_rotate(r, q, succ(ql, 0));
                    assert forall|x: usize| q2.contains(x) implies q.contains(x) by {
                        assert(q2.to_set().contains(x));
                    }
                    assert forall|x: usize| q.contains(x) implies q2.contains(x) by {
                        assert(q.to_set().contains(x));
                    }
                    if r.len() >= 2 {
                        lemma_z_covers_same_set(m, zq, q, q2);
                    }
                    assert(shrink_frame(old_nodes, m, r, zl, q2, zq));
                    if ql == 1 {
                        assert(q2.len() == 1);
                    } else {
                        assert(d == 1) by {
                            if d != 1 {
                                assert(q[d] != q[1]);
                            }
                        }
                        if full {
                            assert forall|k: int| 0 <= k < q2.len() implies #[trigger] filter_keeps(
                                m,
                                q2[k],
                            ) by {
                                if k + 1 < ql {
                                    assert(q2[k] == q[k + 1]);
                                } else {
                                    assert(q2[k] == q[0]);
                                }
                            }
                        } else {
                            lemma_rotate_step(r, c);
                            assert(q2 == rotate(r, c + 1));
                            assert(c + 1 == pe);
                            assert(q[0] == r[c]) by {
                                lemma_rotate(m, r, c);
                            }
                            assert forall|j: int| 0 <= j < r.index_of(end_node) implies #[trigger] filter_keeps(
                                old_nodes,
                                r[j],
                            ) by {
                                if j < c {
                                } else {
                                    assert(j == c);
                                }
                            }
                            assert(q2.len() == r.len());
                            assert(end_i matches Some(e) && e != start_i && end_node == e && m == old_nodes
                                && q2.len() == r.len() && forall|j: int|
                                0 <= j < r.index_of(e) ==> #[trigger] filter_keeps(old_nodes, r[j]));
                        }
                    }
                }
                assert(shrink_frame(old_nodes, nodes@, r, zl, rotate(q, succ(ql, 0)), zq));
                assert(rotate(q, succ(ql, 0)).len() == 1 || (forall|k: int|
                    0 <= k < rotate(q, succ(ql, 0)).len() ==> #[trigger] filter_keeps(nodes@, rotate(q, succ(ql, 0))[k])) || (
                    end_i matches Some(e) && e != start_i && end_node == e && nodes@ == old_nodes
                    && rotate(q, succ(ql, 0)).len() == r.len() && forall|j: int|
                    0 <= j < r.index_of(e) ==> #[trigger] filter_keeps(old_nodes, r[j])));
                return (end_node, Ghost(rotate(q, succ(ql, 0))), Ghost(zq));
            }
            proof {
                let q2 = rotate(q, 1);
                assert(ql >= 2);
                lemma_filter_advance(old_nodes, m, r, zl, q, zq);
                lemma_keeps_cyclic_rotate(r, q, 1);
                let d2 = if d == 0 {
                    ql - 1
                } else {
                    d - 1
                };
                assert(q2[d2] == q[d]);
                assert(d != 1) by {
                    if d == 1 {
                        assert(q[1] == end_node);
                    }
                }
                if full {
                    assert forall|j: int| ql - (c + 1) <= j < ql implies #[trigger] filter_keeps(
                        m,
                        q2[j],
                    ) by {
                        if j + 1 < ql {
                            assert(q2[j] == q[j + 1]);
                        } else {
                            assert(q2[j] == q[0]);
                        }
                    }
                } else {
                    lemma_rotate_step(r, c);
                    assert(q[0] == r[c]) by {
                        lemma_rotate(m, r, c);
                    }
                }
                q = q2;
                d = d2;
                c = c + 1;
            }
        }
    }
}

} // verus!
