//! The ear clipping loop and its fallbacks: filtering, curing local
//! self-intersections, and splitting the ring along a valid diagonal.
use vstd::prelude::*;

use crate::integer::cure::{cure_local_intersections, lemma_arena_remove};
use crate::integer::ears::{
    coords_small, hashed_ear_spec, is_ear, is_ear_hashed, is_ear_small, is_ear_spec, z_blocker,
};
use crate::integer::filter::{
    filter_keeps, filter_points, lemma_relink_step, lemma_shrink_refl, lemma_z_covers_same_set,
    relink_frame, same_payload, shrink_frame,
};
use crate::integer::geom::{lemma_tri_area_symmetry, tri_area};
use crate::integer::nodes::{
    arena_ok, is_ring, lemma_ring_basics, lemma_ring_frame, lemma_ring_remove, lemma_ring_split,
    lemma_rotate, lemma_z_covers_remove, lemma_z_remove, links_ok, node_links_in, remove_node,
    rotate, same_links_on, split_effect, split_polygon, z_covers, z_none, z_ok, zl_without, Node,
};
use crate::integer::polygon::{is_valid_diagonal, valid_diagonal_spec, xy_of};
use crate::integer::pass::{
    clip_state, first_pass, lemma_first_pass_extend, lemma_pass_advance, lemma_pass_cut,
    lemma_pass_done, lemma_pass_start, pass_record,
};
use crate::integer::zorder::index_curve;
use crate::integer::{
    lemma_triangles_refl, lemma_triangles_trans, push_triangle, triangles_appended, Index,
};

verus! {

/// Sentinel `shift` value signaling "no z-order hashing" for this run.
pub const NO_HASH: u32 = 0xFFFF_FFFFu32;

#[derive(Clone, Copy, PartialEq, Eq, Structural)]
pub enum Pass {
    P0,
    P1,
    P2,
}

/// Later passes rank lower; splitting (ranks 1 and 0) ranks lowest.
pub open spec fn pass_rank(pass: Pass) -> int {
    match pass {
        Pass::P0 => 4,
        Pass::P1 => 3,
        Pass::P2 => 2,
    }
}

/// What the z-order links of ring `r` look like in the current run: with no
/// hashing, no node of the ring is in a z-order list; with hashing, after the
/// first pass, the list `zl` holds nodes of the ring and covers it.
pub open spec fn z_mode_ok(nodes: Seq<Node>, r: Seq<usize>, zl: Seq<usize>, shift: u32, pass: Pass) -> bool {
    &&& shift == NO_HASH ==> zl.len() == 0
    &&& (shift == NO_HASH || pass != Pass::P0) ==> {
        &&& z_ok(nodes, zl)
        &&& r.len() >= 2 ==> z_covers(nodes, zl, r)
        &&& forall|x: usize| zl.contains(x) ==> r.contains(x)
    }
}

/// With the `i32` fast path on, every node lies in the small box `bx`.
pub open spec fn small_ok(
    nodes: Seq<Node>,
    shift: u32,
    small_path: bool,
    bx: (int, int, int, int),
) -> bool {
    small_path && shift == NO_HASH ==> coords_small(nodes, bx.0, bx.1, bx.2, bx.3)
}

/// Triangulating ring `r` left every other node as it was, kept the vertex
/// data of all nodes and only appended nodes.
pub open spec fn keeps_outside(old: Seq<Node>, new: Seq<Node>, r: Seq<usize>) -> bool {
    &&& new.len() >= old.len()
    &&& forall|i: usize| i < old.len() && !r.contains(i) ==> #[trigger] new[i as int] == old[i as int]
    &&& forall|i: usize|
        i < old.len() ==> (#[trigger] new[i as int]).index == old[i as int].index && new[i
            as int].xy == old[i as int].xy
}

pub proof fn lemma_keeps_refl(nodes: Seq<Node>, r: Seq<usize>)
    ensures
        keeps_outside(nodes, nodes, r),
{
}

pub proof fn lemma_keeps_trans(a: Seq<Node>, b: Seq<Node>, c: Seq<Node>, r: Seq<usize>, q: Seq<usize>)
    requires
        keeps_outside(a, b, r),
        keeps_outside(b, c, q),
        forall|x: usize| q.contains(x) ==> r.contains(x) || x >= a.len(),
    ensures
        keeps_outside(a, c, r),
{
    assert forall|i: usize| i < a.len() && !r.contains(i) implies #[trigger] c[i as int] == a[i as int] by {
        assert(!q.contains(i));
        assert(b[i as int] == a[i as int]);
    }
    assert forall|i: usize| i < a.len() implies (#[trigger] c[i as int]).index == a[i as int].index
        && c[i as int].xy == a[i as int].xy by {
        assert(b[i as int].index == a[i as int].index);
    }
}

/// A relinking of `r` whose z-order list lay within `r` keeps every node outside `r`.
pub proof fn lemma_relink_keeps(
    old: Seq<Node>,
    new: Seq<Node>,
    r: Seq<usize>,
    zl: Seq<usize>,
    r2: Seq<usize>,
    zl2: Seq<usize>,
)
    requires
        relink_frame(old, new, r, zl, r2, zl2),
        forall|x: usize| zl.contains(x) ==> r.contains(x),
    ensures
        keeps_outside(old, new, r),
{
    assert forall|i: usize| i < old.len() implies (#[trigger] new[i as int]).index == old[i as int].index
        && new[i as int].xy == old[i as int].xy by {
        assert(same_payload(new[i as int], old[i as int]));
    }
}

/// After relinking, vertex indices stay below `dlen` and small boxes stay valid.
pub proof fn lemma_keeps_arena(
    old: Seq<Node>,
    new: Seq<Node>,
    r: Seq<usize>,
    dlen: int,
    shift: u32,
    small_path: bool,
    bx: (int, int, int, int),
)
    requires
        keeps_outside(old, new, r),
        new.len() == old.len(),
        old.len() <= usize::MAX,
        arena_ok(old, dlen),
        links_ok(new),
        small_ok(old, shift, small_path, bx),
    ensures
        arena_ok(new, dlen),
        small_ok(new, shift, small_path, bx),
{
    assert forall|i: int| 0 <= i < new.len() implies (#[trigger] new[i]).index < dlen by {
        let iu = i as usize;
        assert(new[iu as int].index == old[iu as int].index);
    }
    if small_path && shift == NO_HASH {
        assert forall|i: int| 0 <= i < new.len() implies bx.0 <= (#[trigger] new[i]).xy[0] <= bx.2
            && bx.1 <= new[i].xy[1] <= bx.3 by {
            let iu = i as usize;
            assert(new[iu as int].xy == old[iu as int].xy);
        }
    }
}

/// The state after cutting the ear `q[0]` off ring `q` (of three or more
/// nodes), read from `q[2]`.
#[verifier::spinoff_prover]
proof fn lemma_cut_ear(
    o: Seq<Node>,
    m: Seq<Node>,
    nn: Seq<Node>,
    r: Seq<usize>,
    zl: Seq<usize>,
    q: Seq<usize>,
    zq: Seq<usize>,
    pl: crate::integer::nodes::LinkInfo,
)
    requires
        relink_frame(o, m, r, zl, q, zq),
        is_ring(m, q),
        q.len() >= 3,
        z_ok(m, zq),
        z_covers(m, zq, q),
        forall|x: usize| zq.contains(x) ==> q.contains(x),
        pl.prev == m[q[0] as int].prev,
        pl.next == m[q[0] as int].next,
        pl.prev_z == m[q[0] as int].prev_z,
        pl.next_z == m[q[0] as int].next_z,
        crate::integer::nodes::remove_effect(m, nn, pl),
    ensures
        ({
            let q3 = rotate(q.drop_first(), 1);
            let zq2 = zl_without(zq, q[0]);
            &&& is_ring(nn, q3)
            &&& q3.len() == q.len() - 1
            &&& q3[0] == q[2]
            &&& z_ok(nn, zq2)
            &&& z_covers(nn, zq2, q3)
            &&& forall|x: usize| zq2.contains(x) ==> q3.contains(x)
            &&& relink_frame(o, nn, r, zl, q3, zq2)
        }),
{
    let n = q.len() as int;
    lemma_ring_basics(m, q, 0);
    let q1 = q.drop_first();
    lemma_ring_remove(m, nn, q, pl);
    assert forall|x: usize| q1.contains(x) implies q.contains(x) by {
        let j = choose|j: int| 0 <= j < q1.len() && q1[j] == x;
        assert(q[j + 1] == x);
    }
    assert forall|x: usize| q.contains(x) && x != q[0] implies q1.contains(x) by {
        let j = choose|j: int| 0 <= j < q.len() && q[j] == x;
        assert(q1[j - 1] == x);
    }
    assert(zq.contains(q[0]) || z_none(m[q[0] as int]));
    lemma_relink_step(o, m, nn, r, zl, q, zq, q1, pl);
    assert(!q1.contains(q[0]));
    lemma_z_covers_remove(m, nn, zq, pl, q[0], q1);
    lemma_z_remove(m, nn, zq, pl, q[0]);
    let zq2 = zl_without(zq, q[0]);
    lemma_rotate(nn, q1, 1);
    let q3 = rotate(q1, 1);
    assert(q3[0] == q[2]);
    assert forall|x: usize| q3.contains(x) implies q1.contains(x) by {
        assert(q3.to_set().contains(x));
    }
    assert forall|x: usize| q1.contains(x) implies q3.contains(x) by {
        assert(q1.to_set().contains(x));
    }
    lemma_z_covers_same_set(nn, zq2, q1, q3);
    assert forall|x: usize| zq2.contains(x) implies q3.contains(x) by {
        assert(q1.contains(x));
    }
}


/// `r` is a ring of three nodes whose corner at `r[0]` is convex.
pub open spec fn convex_three(nodes: Seq<Node>, r: Seq<usize>) -> bool {
    &&& r.len() == 3
    &&& tri_area(xy_of(nodes, r[2]), xy_of(nodes, r[0]), xy_of(nodes, r[1])) < 0
}

/// Ring `r` has three nodes, none of them a Steiner point, whose points lie
/// on one line: it has no area, and no ear can be cut from it.
pub open spec fn flat_three(nodes: Seq<Node>, r: Seq<usize>) -> bool {
    &&& r.len() == 3
    &&& tri_area(xy_of(nodes, r[2]), xy_of(nodes, r[0]), xy_of(nodes, r[1])) == 0
    &&& forall|k: int| 0 <= k < 3 ==> !(#[trigger] nodes[r[k] as int]).steiner
}

/// Filtering a flat ring of three nodes leaves a single node: each of the
/// three, and each of two left, sits on a line with its neighbours.
proof fn lemma_flat_filtered(
    m2: Seq<Node>,
    m3: Seq<Node>,
    q: Seq<usize>,
    zq: Seq<usize>,
    r2: Seq<usize>,
    zq2: Seq<usize>,
)
    requires
        flat_three(m2, q),
        is_ring(m2, q),
        is_ring(m3, r2),
        r2.len() <= q.len(),
        shrink_frame(m2, m3, q, zq, r2, zq2),
        r2.len() == 1 || (forall|k: int|
            0 <= k < r2.len() ==> #[trigger] filter_keeps(m3, r2[k])),
    ensures
        r2.len() == 1,
{
    if r2.len() != 1 {
        let a = xy_of(m2, q[2]);
        let b = xy_of(m2, q[0]);
        let c = xy_of(m2, q[1]);
        lemma_tri_area_symmetry(a, b, c);
        lemma_tri_area_symmetry(b, c, a);
        lemma_tri_area_symmetry(c, a, b);
        lemma_tri_area_symmetry(a, c, b);
        lemma_tri_area_symmetry(c, b, a);
        lemma_tri_area_symmetry(b, a, c);
        assert(q.contains(r2[0]));
        assert(same_payload(m3[r2[0] as int], m2[r2[0] as int]));
        assert(filter_keeps(m3, r2[0]));
        lemma_ring_basics(m3, r2, 0);
        if r2.len() == 2 {
            lemma_tri_area_symmetry(xy_of(m3, r2[1]), xy_of(m3, r2[0]), xy_of(m3, r2[1]));
            assert(m3[r2[0] as int].prev == r2[1] && m3[r2[0] as int].next == r2[1]);
        } else {
            assert(r2.len() == 3);
            assert(q.contains(r2[1]));
            assert(q.contains(r2[2]));
            assert(same_payload(m3[r2[1] as int], m2[r2[1] as int]));
            assert(same_payload(m3[r2[2] as int], m2[r2[2] as int]));
            assert(r2[0] != r2[1] && r2[1] != r2[2] && r2[0] != r2[2]);
            assert(m3[r2[0] as int].prev == r2[2] && m3[r2[0] as int].next == r2[1]);
        }
    }
}

/// The signed area of the corner of ring `r` at `r[k]`.
pub open spec fn corner_area(nodes: Seq<Node>, r: Seq<usize>, k: int) -> int {
    tri_area(
        xy_of(nodes, r[crate::integer::nodes::pred(r.len() as int, k)]),
        xy_of(nodes, r[k]),
        xy_of(nodes, r[crate::integer::nodes::succ(r.len() as int, k)]),
    )
}

/// Every corner of ring `r` is convex (its signed area is negative).
pub open spec fn all_convex(nodes: Seq<Node>, r: Seq<usize>) -> bool {
    forall|k: int| 0 <= k < r.len() ==> #[trigger] corner_area(nodes, r, k) < 0
}

/// Ring `r` has four nodes and every corner is convex.
pub open spec fn convex_four(nodes: Seq<Node>, r: Seq<usize>) -> bool {
    r.len() == 4 && all_convex(nodes, r)
}

/// The two triangles that cutting ring `r` of four nodes at `r[0]` and then
/// at `r[2]` records.
pub open spec fn four_triangles<N: Index>(nodes: Seq<Node>, r: Seq<usize>) -> Seq<N> {
    ear_triangle::<N>(nodes, r) + seq![
        N::from_nat(nodes[r[1] as int].index as nat),
        N::from_nat(nodes[r[2] as int].index as nat),
        N::from_nat(nodes[r[3] as int].index as nat),
    ]
}

/// In a ring whose corners are all convex, every ear test accepts the
/// first node: no vertex is reflex, so none can block it.
pub proof fn lemma_convex_ear(
    nodes: Seq<Node>,
    r: Seq<usize>,
    zl: Seq<usize>,
    min_x: i32,
    min_y: i32,
    shift: u32,
)
    requires
        is_ring(nodes, r),
        r.len() >= 3,
        all_convex(nodes, r),
        forall|x: usize| zl.contains(x) ==> r.contains(x),
    ensures
        is_ear_spec(nodes, r),
        hashed_ear_spec(nodes, r, zl, min_x, min_y, shift),
{
    let n = r.len() as int;
    assert(corner_area(nodes, r, 0) < 0);
    assert forall|k: int| 2 <= k < n - 1 implies !#[trigger] crate::integer::ears::ear_blocker(
        nodes,
        r,
        k,
    ) by {
        assert(corner_area(nodes, r, k) < 0);
    }
    assert forall|j: int| 0 <= j < zl.len() implies !#[trigger] z_blocker(
        nodes,
        zl[j],
        r[n - 1],
        r[1],
        xy_of(nodes, r[n - 1]),
        xy_of(nodes, r[0]),
        xy_of(nodes, r[1]),
    ) by {
        assert(zl.contains(zl[j]));
        assert(r.contains(zl[j]));
        let k = r.index_of(zl[j]);
        lemma_ring_basics(nodes, r, k);
        assert(corner_area(nodes, r, k) < 0);
    }
}

/// `v` is the vertex index of some node of ring `r` of the arena `nodes`.
pub open spec fn corner_of<N: Index>(nodes: Seq<Node>, r: Seq<usize>, v: N) -> bool {
    exists|x: usize| r.contains(x) && v == N::from_nat(nodes[x as int].index as nat)
}

/// Every corner that `new` records beyond `old` is the vertex of a node of
/// ring `r` of the arena `nodes`.
pub open spec fn corners_from<N: Index>(nodes: Seq<Node>, r: Seq<usize>, old: Seq<N>, new: Seq<N>) -> bool {
    forall|k: int| old.len() <= k < new.len() ==> #[trigger] corner_of(nodes, r, new[k])
}

pub proof fn lemma_corners_refl<N: Index>(nodes: Seq<Node>, r: Seq<usize>, t: Seq<N>)
    ensures
        corners_from(nodes, r, t, t),
{
}

/// Corners recorded in two stretches, each from ring `r`, are from `r`.
pub proof fn lemma_corners_trans<N: Index>(
    nodes: Seq<Node>,
    r: Seq<usize>,
    a: Seq<N>,
    b: Seq<N>,
    c: Seq<N>,
    dlen: nat,
)
    requires
        corners_from(nodes, r, a, b),
        corners_from(nodes, r, b, c),
        triangles_appended(a, b, dlen),
        triangles_appended(b, c, dlen),
    ensures
        corners_from(nodes, r, a, c),
{
    assert forall|k: int| a.len() <= k < c.len() implies #[trigger] corner_of(nodes, r, c[k]) by {
        if k < b.len() {
            assert(c.subrange(0, b.len() as int)[k] == b[k]);
            assert(corner_of(nodes, r, b[k]));
        }
    }
}

/// Corners from nodes of ring `q` of `m` are corners from ring `r` of `o`
/// when each node of `q` stands for the vertex of some node of `r`.
pub proof fn lemma_corners_lift<N: Index>(
    m: Seq<Node>,
    q: Seq<usize>,
    o: Seq<Node>,
    r: Seq<usize>,
    t0: Seq<N>,
    t1: Seq<N>,
)
    requires
        corners_from(m, q, t0, t1),
        forall|x: usize| q.contains(x) ==> #[trigger] corner_of::<N>(o, r, N::from_nat(m[x as int].index as nat)),
    ensures
        corners_from(o, r, t0, t1),
{
    assert forall|k: int| t0.len() <= k < t1.len() implies #[trigger] corner_of(o, r, t1[k]) by {
        assert(corner_of(m, q, t1[k]));
        let x = choose|x: usize| q.contains(x) && t1[k] == N::from_nat(m[x as int].index as nat);
        assert(corner_of::<N>(o, r, N::from_nat(m[x as int].index as nat)));
    }
}

/// Nodes of a ring within `r` whose vertex indices are kept stand for nodes of `r`.
pub proof fn lemma_corner_of_kept<N: Index>(m: Seq<Node>, q: Seq<usize>, o: Seq<Node>, r: Seq<usize>)
    requires
        forall|x: usize| q.contains(x) ==> r.contains(x),
        forall|x: usize| q.contains(x) ==> #[trigger] m[x as int].index == o[x as int].index,
    ensures
        forall|x: usize| q.contains(x) ==> #[trigger] corner_of::<N>(o, r, N::from_nat(m[x as int].index as nat)),
{
    assert forall|x: usize| q.contains(x) implies #[trigger] corner_of::<N>(
        o,
        r,
        N::from_nat(m[x as int].index as nat),
    ) by {
        assert(m[x as int].index == o[x as int].index);
        assert(r.contains(x));
    }
}

/// The triangle that cutting an ear of ring `q` records has its corners
/// from ring `r`, of which `q` is what is left.
pub proof fn lemma_clip_corners<N: Index>(
    o: Seq<Node>,
    o1: Seq<Node>,
    m: Seq<Node>,
    r: Seq<usize>,
    zl0: Seq<usize>,
    q: Seq<usize>,
    zq: Seq<usize>,
    t0: Seq<N>,
    t1: Seq<N>,
)
    requires
        keeps_outside(o, o1, r),
        relink_frame(o1, m, r, zl0, q, zq),
        is_ring(o, r),
        is_ring(m, q),
        q.len() >= 3,
        t1 == t0 + seq![
            N::from_nat(m[q[q.len() - 1] as int].index as nat),
            N::from_nat(m[q[0] as int].index as nat),
            N::from_nat(m[q[1] as int].index as nat),
        ],
    ensures
        corners_from(o, r, t0, t1),
{
    let n = q.len() as int;
    assert forall|k: int| t0.len() <= k < t1.len() implies #[trigger] corner_of(o, r, t1[k]) by {
        let i = k - t0.len();
        let x = if i == 0 {
            q[n - 1]
        } else if i == 1 {
            q[0]
        } else {
            q[1]
        };
        assert(q.contains(x));
        assert(r.contains(x));
        let kr = r.index_of(x);
        lemma_ring_basics(o, r, kr);
        assert(same_payload(m[x as int], o1[x as int]));
        assert(o1[x as int].index == o[x as int].index);
    }
}

/// The triangles that curing records have their corners from the ring cured.
pub proof fn lemma_cured_corners<N: Index>(m: Seq<Node>, fq: Seq<usize>, t0: Seq<N>, t1: Seq<N>)
    requires
        t1.len() >= t0.len(),
        (t1.len() - t0.len()) % 3 == 0,
        forall|j: int|
            0 <= j < (t1.len() - t0.len()) / 3 ==> #[trigger] crate::integer::cure::cured_corner(
                m,
                fq,
                crate::integer::cure::appended_triangle(t0, t1, j),
            ),
    ensures
        corners_from(m, fq, t0, t1),
{
    assert forall|k: int| t0.len() <= k < t1.len() implies #[trigger] corner_of(m, fq, t1[k]) by {
        let j = (k - t0.len()) / 3;
        let i = (k - t0.len()) % 3;
        let tri = crate::integer::cure::appended_triangle(t0, t1, j);
        assert(crate::integer::cure::cured_corner(m, fq, tri));
        assert(tri[i] == t1[k]);
        let (a, ap, p, pn, b, bn) = choose|
            a: usize,
            ap: usize,
            p: usize,
            pn: usize,
            b: usize,
            bn: usize,
        | #[trigger] crate::integer::cure::cure_cut(m, fq, tri, a, ap, p, pn, b, bn);
        if i == 0 {
            assert(fq.contains(a));
        } else if i == 1 {
            assert(fq.contains(p));
        } else {
            assert(fq.contains(b));
        }
    }
}

/// The most triangles that a ring of `n` nodes can be cut into: `n - 2`.
pub open spec fn max_triangles(n: int) -> int {
    if n >= 2 {
        n - 2
    } else {
        0
    }
}

/// The triangle that cutting the ear `r[0]` off ring `r` records.
pub open spec fn ear_triangle<N: Index>(nodes: Seq<Node>, r: Seq<usize>) -> Seq<N> {
    seq![
        N::from_nat(nodes[r[r.len() - 1] as int].index as nat),
        N::from_nat(nodes[r[0] as int].index as nat),
        N::from_nat(nodes[r[1] as int].index as nat),
    ]
}

/// In a ring of three nodes, every ear test comes down to whether the corner
/// is convex: no other node can block it.
pub proof fn lemma_three_ear(
    nodes: Seq<Node>,
    r: Seq<usize>,
    zl: Seq<usize>,
    min_x: i32,
    min_y: i32,
    shift: u32,
)
    requires
        is_ring(nodes, r),
        r.len() == 3,
        z_ok(nodes, zl),
        forall|x: usize| zl.contains(x) ==> r.contains(x),
    ensures
        is_ear_spec(nodes, r) == convex_three(nodes, r),
        hashed_ear_spec(nodes, r, zl, min_x, min_y, shift) == convex_three(nodes, r),
{
    let a = xy_of(nodes, r[2]);
    let b = xy_of(nodes, r[0]);
    let c = xy_of(nodes, r[1]);
    if zl.contains(r[0]) {
        let kz = zl.index_of(r[0]);
        assert forall|j: int| 0 <= j < zl.len() && j != kz implies !#[trigger] z_blocker(
            nodes,
            zl[j],
            r[2],
            r[1],
            a,
            b,
            c,
        ) by {
            assert(zl.contains(zl[j]));
            assert(zl[j] != zl[kz]);
        }
    }
}

/// A relinking that stays within the nodes `big` keeps every node outside `big`.
pub proof fn lemma_relink_keeps_within(
    old: Seq<Node>,
    new: Seq<Node>,
    r: Seq<usize>,
    zl: Seq<usize>,
    r2: Seq<usize>,
    zl2: Seq<usize>,
    big: Seq<usize>,
)
    requires
        relink_frame(old, new, r, zl, r2, zl2),
        forall|x: usize| r.contains(x) ==> big.contains(x),
        forall|x: usize| zl.contains(x) ==> big.contains(x),
    ensures
        keeps_outside(old, new, big),
{
    assert forall|i: usize| i < old.len() && !big.contains(i) implies #[trigger] new[i as int]
        == old[i as int] by {
        assert(!r.contains(i));
        assert(!zl.contains(i));
    }
    assert forall|i: usize| i < old.len() implies (#[trigger] new[i as int]).index == old[i as int].index
        && new[i as int].xy == old[i as int].xy by {
        assert(same_payload(new[i as int], old[i as int]));
    }
}

/// Records the ear `q[0]` as a triangle with its two neighbours and unlinks
/// it from ring `q`; returns the node after the ear's successor, where the
/// search goes on.
#[verifier::spinoff_prover]
fn clip_ear<N: Index>(
    nodes: &mut Vec<Node>,
    triangles: &mut Vec<N>,
    ear_i: usize,
    prev_i: usize,
    next_i: usize,
    Ghost(o1): Ghost<Seq<Node>>,
    Ghost(r): Ghost<Seq<usize>>,
    Ghost(zl0): Ghost<Seq<usize>>,
    Ghost(q): Ghost<Seq<usize>>,
    Ghost(zq): Ghost<Seq<usize>>,
    Ghost(dlen): Ghost<nat>,
) -> (nn: usize)
    requires
        arena_ok(old(nodes)@, dlen as int),
        is_ring(old(nodes)@, q),
        q.len() >= 3,
        q[0] == ear_i,
        prev_i == q[q.len() - 1],
        next_i == q[1],
        z_ok(old(nodes)@, zq),
        z_covers(old(nodes)@, zq, q),
        forall|x: usize| zq.contains(x) ==> q.contains(x),
        relink_frame(o1, old(nodes)@, r, zl0, q, zq),
    ensures
        arena_ok(final(nodes)@, dlen as int),
        ({
            let q3 = rotate(q.drop_first(), 1);
            let zq2 = zl_without(zq, q[0]);
            &&& is_ring(final(nodes)@, q3)
            &&& q3.len() == q.len() - 1
            &&& q3[0] == nn
            &&& z_ok(final(nodes)@, zq2)
            &&& z_covers(final(nodes)@, zq2, q3)
            &&& forall|x: usize| zq2.contains(x) ==> q3.contains(x)
            &&& relink_frame(o1, final(nodes)@, r, zl0, q3, zq2)
        }),
        final(triangles)@ == old(triangles)@ + seq![
            N::from_nat(old(nodes)@[prev_i as int].index as nat),
            N::from_nat(old(nodes)@[ear_i as int].index as nat),
            N::from_nat(old(nodes)@[next_i as int].index as nat),
        ],
        triangles_appended(old(triangles)@, final(triangles)@, dlen),
{
    let ghost m = nodes@;
    proof {
        lemma_ring_basics(m, q, 0);
        lemma_ring_basics(m, q, 1);
        lemma_ring_basics(m, q, q.len() - 1);
        assert(node_links_in(m[ear_i as int], m.len() as int));
        assert(m[prev_i as int].index < dlen);
        assert(m[ear_i as int].index < dlen);
        assert(m[next_i as int].index < dlen);
    }
    let ear = nodes[ear_i];
    let next = nodes[next_i];
    push_triangle(triangles, nodes[prev_i].index, ear.index, next.index, Ghost(dlen));
    let pl = ear.link_info();
    remove_node(nodes, pl);
    proof {
        lemma_arena_remove(m, nodes@, pl, dlen as int);
        lemma_cut_ear(o1, m, nodes@, r, zl0, q, zq, pl);
    }
    next.next
}

/// One ear cut in a convex ring of four nodes: after the first cut, the
/// three nodes left form a convex ring whose ear records the second triangle;
/// after the second, both triangles are recorded.
proof fn lemma_convex_four_step<N: Index>(
    o: Seq<Node>,
    o1: Seq<Node>,
    m: Seq<Node>,
    m2: Seq<Node>,
    r: Seq<usize>,
    zl0: Seq<usize>,
    q: Seq<usize>,
    zq: Seq<usize>,
    ot: Seq<N>,
    t0: Seq<N>,
    t1: Seq<N>,
)
    requires
        convex_four(o, r),
        is_ring(o, r),
        is_ring(m, q),
        q.len() >= 3,
        keeps_outside(o, o1, r),
        relink_frame(o1, m, r, zl0, q, zq),
        relink_frame(o1, m2, r, zl0, rotate(q.drop_first(), 1), zl_without(zq, q[0])),
        (t0 == ot && q == r && all_convex(m, q)) || (t0 == ot + ear_triangle::<N>(o, r) && q
            == seq![r[2], r[3], r[1]] && convex_three(m, q) && ear_triangle::<N>(m, q) == seq![
            N::from_nat(o[r[1] as int].index as nat),
            N::from_nat(o[r[2] as int].index as nat),
            N::from_nat(o[r[3] as int].index as nat),
        ]),
        t1 == t0 + seq![
            N::from_nat(m[q[q.len() - 1] as int].index as nat),
            N::from_nat(m[q[0] as int].index as nat),
            N::from_nat(m[q[1] as int].index as nat),
        ],
    ensures
        ({
            let q3 = rotate(q.drop_first(), 1);
            ||| (t1 == ot + ear_triangle::<N>(o, r) && q3 == seq![r[2], r[3], r[1]] && convex_three(
                m2,
                q3,
            ) && ear_triangle::<N>(m2, q3) == seq![
                N::from_nat(o[r[1] as int].index as nat),
                N::from_nat(o[r[2] as int].index as nat),
                N::from_nat(o[r[3] as int].index as nat),
            ])
            ||| (t1 == ot + four_triangles::<N>(o, r) && q3.len() == 2)
        }),
{
    let q3 = rotate(q.drop_first(), 1);
    assert forall|k: int| 0 <= k < 4 implies #[trigger] o1[r[k] as int].index == o[r[k] as int].index
        && o1[r[k] as int].xy == o[r[k] as int].xy by {
        lemma_ring_basics(o, r, k);
    }
    if q == r {
        assert forall|k: int| 0 <= k < 4 implies same_payload(#[trigger] m[r[k] as int], o1[r[k] as int])
            && same_payload(m2[r[k] as int], o1[r[k] as int]) by {
            lemma_ring_basics(o, r, k);
        }
        assert(t1 == ot + ear_triangle::<N>(o, r));
        assert(q3 =~= seq![r[2], r[3], r[1]]);
        assert(corner_area(m, r, 2) < 0);
    } else {
        assert forall|k: int| 0 <= k < 4 implies same_payload(#[trigger] m[r[k] as int], o1[r[k] as int])
            by {
            lemma_ring_basics(o, r, k);
        }
        assert(t1 =~= ot + four_triangles::<N>(o, r));
    }
}

/// The first ear clipping loop of a pass: cuts ears off ring `r` until a
/// ring of fewer than three nodes is left or a whole lap of the ring finds no
/// ear. Returns the node it stopped on, the ring and z-order list left, and
/// how many nodes in a row it tested without a cut.
#[verifier::rlimit(100)]
#[verifier::spinoff_prover]
fn clip_pass<N: Index>(
    nodes: &mut Vec<Node>,
    ear_i: usize,
    triangles: &mut Vec<N>,
    min_x: i32,
    min_y: i32,
    shift: u32,
    small_path: bool,
    pass: Pass,
    Ghost(o): Ghost<Seq<Node>>,
    Ghost(o1): Ghost<Seq<Node>>,
    Ghost(r): Ghost<Seq<usize>>,
    Ghost(zl0): Ghost<Seq<usize>>,
    Ghost(ot): Ghost<Seq<N>>,
    Ghost(dlen): Ghost<nat>,
    Ghost(bx): Ghost<(int, int, int, int)>,
) -> (res: (usize, Ghost<Seq<usize>>, Ghost<Seq<usize>>, Ghost<int>))
    requires
        old(nodes)@ == o1,
        old(triangles)@ == ot,
        pass == Pass::P0 ==> pass_record(o, r, ot, ot, o1, r, zl0, 0, min_x, min_y, shift),
        arena_ok(o1, dlen as int),
        o1.len() <= usize::MAX,
        small_ok(o1, shift, small_path, bx),
        shift != NO_HASH ==> shift <= 49,
        shift == NO_HASH ==> zl0.len() == 0,
        keeps_outside(o, o1, r),
        forall|x: usize| zl0.contains(x) ==> r.contains(x),
        is_ring(o1, r),
        r[0] == ear_i,
        z_ok(o1, zl0),
        r.len() >= 2 ==> z_covers(o1, zl0, r),
        relink_frame(o1, o1, r, zl0, r, zl0),
        triangles_appended(ot, ot, dlen),
        is_ring(o, r),
        corners_from(o, r, ot, ot),
        convex_four(o, r) ==> all_convex(o1, r),
        flat_three(o, r) ==> flat_three(o1, r),
        o1.len() == o.len(),
    ensures
        ({
            let (q, zq, f) = (res.1@, res.2@, res.3@);
            &&& pass == Pass::P0 ==> pass_record(
                o,
                r,
                ot,
                final(triangles)@,
                final(nodes)@,
                q,
                zq,
                f,
                min_x,
                min_y,
                shift,
            )
            &&& 0 <= f
            &&& q.len() >= 3 ==> f == q.len()
            &&& shift == NO_HASH ==> zq.len() == 0
            &&& arena_ok(final(nodes)@, dlen as int)
            &&& small_ok(final(nodes)@, shift, small_path, bx)
            &&& is_ring(final(nodes)@, q)
            &&& q[0] == res.0
            &&& q.len() <= r.len()
            &&& z_ok(final(nodes)@, zq)
            &&& q.len() >= 2 ==> z_covers(final(nodes)@, zq, q)
            &&& forall|x: usize| zq.contains(x) ==> q.contains(x)
            &&& relink_frame(o1, final(nodes)@, r, zl0, q, zq)
            &&& triangles_appended(ot, final(triangles)@, dlen)
            &&& final(triangles)@.len() + 3 * q.len() <= ot.len() + 3 * r.len()
            &&& q.len() >= 2 || final(triangles)@ == ot
            &&& corners_from(o, r, ot, final(triangles)@)
            &&& convex_four(o, r) ==> final(triangles)@ == ot + four_triangles::<N>(o, r) && q.len()
                == 2
            &&& convex_three(o, r) ==> final(triangles)@ == ot + ear_triangle::<N>(o, r) && q.len()
                == 2
            &&& flat_three(o, r) ==> final(triangles)@ == ot && flat_three(final(nodes)@, q)
            &&& r.len() == 1 ==> final(triangles)@ == ot && q.len() == 1
        }),
{
    let mut ear_i = ear_i;
    let ghost mut zq = zl0;
    let mut stop_i = ear_i;
    let ghost mut q = r;
    let ghost mut sp: int = 0;
    let ghost mut f: int = 0;
    loop
        invariant_except_break
            sp == 0 ==> f == 0,
        invariant
            pass == Pass::P0 ==> pass_record(
                o,
                r,
                ot,
                triangles@,
                nodes@,
                q,
                zq,
                f,
                min_x,
                min_y,
                shift,
            ),
            sp > 0 ==> f == q.len() - sp,
            0 <= f,
            arena_ok(nodes@, dlen as int),
            arena_ok(o1, dlen as int),
            o1.len() <= usize::MAX,
            small_ok(o1, shift, small_path, bx),
            small_ok(nodes@, shift, small_path, bx),
            shift != NO_HASH ==> shift <= 49,
            shift == NO_HASH ==> zq.len() == 0,
            keeps_outside(o, o1, r),
            forall|x: usize| zl0.contains(x) ==> r.contains(x),
            is_ring(nodes@, q),
            q[0] == ear_i,
            0 <= sp < q.len(),
            q[sp] == stop_i,
            q.len() <= r.len(),
            z_ok(nodes@, zq),
            q.len() >= 2 ==> z_covers(nodes@, zq, q),
            forall|x: usize| zq.contains(x) ==> q.contains(x),
            relink_frame(o1, nodes@, r, zl0, q, zq),
            triangles_appended(ot, triangles@, dlen),
            convex_three(o, r) ==> (triangles@ == ot && q == r) || (triangles@ == ot
                + ear_triangle::<N>(o, r) && q.len() == 2),
            flat_three(o, r) ==> triangles@ == ot && flat_three(nodes@, q),
            r.len() == 1 ==> triangles@ == ot && q.len() == 1,
            triangles@.len() + 3 * q.len() <= ot.len() + 3 * r.len(),
            q.len() >= 2 || triangles@ == ot,
            is_ring(o, r),
            corners_from(o, r, ot, triangles@),
            convex_four(o, r) ==> (triangles@ == ot && q == r && all_convex(nodes@, q)) || (triangles@
                == ot + ear_triangle::<N>(o, r) && q == seq![r[2], r[3], r[1]] && convex_three(
                nodes@,
                q,
            ) && ear_triangle::<N>(nodes@, q) == seq![
                N::from_nat(o[r[1] as int].index as nat),
                N::from_nat(o[r[2] as int].index as nat),
                N::from_nat(o[r[3] as int].index as nat),
            ]) || (triangles@ == ot + four_triangles::<N>(o, r) && q.len() == 2),
            o1.len() == o.len(),
        ensures
            q.len() >= 3 ==> f == q.len(),
            convex_four(o, r) ==> triangles@ == ot + four_triangles::<N>(o, r) && q.len() == 2,
            convex_three(o, r) ==> triangles@ == ot + ear_triangle::<N>(o, r) && q.len() == 2,
            flat_three(o, r) ==> triangles@ == ot && flat_three(nodes@, q),
            r.len() == 1 ==> triangles@ == ot && q.len() == 1,
        decreases q.len(), if sp == 0 {
            q.len() as int
        } else {
            sp
        },
    {
        let ghost m = nodes@;
        let ghost n = q.len() as int;
        proof {
            lemma_ring_basics(m, q, 0);
        }
        let ear = nodes[ear_i];
        if ear.prev == ear.next {
            break;
        }
        proof {
            assert(n >= 3) by {
                if n <= 2 {
                    lemma_ring_basics(m, q, n - 1);
                }
            }
        }
        let ni = ear.next;
        proof {
            if flat_three(o, r) {
                lemma_three_ear(m, q, zq, min_x, min_y, shift);
                lemma_tri_area_symmetry(xy_of(m, q[2]), xy_of(m, q[0]), xy_of(m, q[1]));
                assert(!convex_three(m, q));
            }
            if convex_four(o, r) && q == r {
                lemma_convex_ear(m, q, zq, min_x, min_y, shift);
            }
            if convex_four(o, r) && q.len() == 3 {
                lemma_three_ear(m, q, zq, min_x, min_y, shift);
            }
            if convex_three(o, r) && q == r {
                lemma_three_ear(m, q, zq, min_x, min_y, shift);
                assert forall|k: int| 0 <= k < 3 implies xy_of(m, q[k]) == xy_of(o, q[k]) by {
                    lemma_ring_basics(m, q, k);
                    assert(same_payload(m[q[k] as int], o1[q[k] as int]));
                    assert(o1[q[k] as int].xy == o[q[k] as int].xy);
                }
            }
        }
        let (is_ear_found, prev_i, next_i) = if shift != NO_HASH {
            is_ear_hashed(nodes, ear_i, min_x, min_y, shift, Ghost(q), Ghost(zq))
        } else if small_path {
            proof {
                crate::integer::ears::lemma_ring_coords_small(nodes@, q, bx.0, bx.1, bx.2, bx.3);
            }
            is_ear_small(nodes, ear_i, Ghost(q), Ghost(bx))
        } else {
            is_ear(nodes, ear_i, Ghost(q))
        };
        if is_ear_found {
            let ghost t0 = triangles@;
            let nn = clip_ear(
                nodes,
                triangles,
                ear_i,
                prev_i,
                next_i,
                Ghost(o1),
                Ghost(r),
                Ghost(zl0),
                Ghost(q),
                Ghost(zq),
                Ghost(dlen),
            );
            proof {
                if convex_three(o, r) {
                    assert forall|k: int| 0 <= k < 3 implies m[q[k] as int].index == o[q[k] as int].index by {
                        lemma_ring_basics(m, q, k);
                        assert(same_payload(m[q[k] as int], o1[q[k] as int]));
                    }
                    assert(triangles@ == ot + ear_triangle::<N>(o, r));
                }
                if convex_four(o, r) {
                    lemma_convex_four_step(o, o1, m, nodes@, r, zl0, q, zq, ot, t0, triangles@);
                }
                if pass == Pass::P0 {
                    let m2 = nodes@;
                    assert forall|x: usize| q.contains(x) && x != q[0] implies #[trigger] m2[x
                        as int].xy == m[x as int].xy && m2[x as int].index == m[x as int].index
                        && m2[x as int].z == m[x as int].z by {
                        let k = q.index_of(x);
                        lemma_ring_basics(m, q, k);
                        assert(same_payload(m2[x as int], o1[x as int]));
                        assert(same_payload(m[x as int], o1[x as int]));
                    }
                    lemma_pass_cut(o, r, ot, t0, triangles@, m, m2, q, zq, f, min_x, min_y, shift);
                }
                lemma_clip_corners(o, o1, m, r, zl0, q, zq, t0, triangles@);
                lemma_corners_trans(o, r, ot, t0, triangles@, dlen);
                lemma_triangles_trans(ot, t0, triangles@, dlen);
                lemma_relink_keeps(
                    o1,
                    nodes@,
                    r,
                    zl0,
                    rotate(q.drop_first(), 1),
                    zl_without(zq, q[0]),
                );
                lemma_keeps_arena(o1, nodes@, r, dlen as int, shift, small_path, bx);
                q = rotate(q.drop_first(), 1);
                zq = zl_without(zq, ear_i);
                sp = 0;
                f = 0;
            }
            ear_i = nn;
            stop_i = nn;
            continue;
        }
        ear_i = ni;
        proof {
            if pass == Pass::P0 {
                lemma_pass_advance(o, r, ot, triangles@, m, q, zq, f, min_x, min_y, shift);
            }
            f = f + 1;
            crate::integer::cure::lemma_ring_advance(o1, m, r, zl0, q, zq);
            let q2 = rotate(q, 1);
            let sp2 = if sp == 0 {
                n - 1
            } else {
                sp - 1
            };
            assert(q2[sp2] == q[sp]);
            assert forall|x: usize| zq.contains(x) implies q2.contains(x) by {
                assert(q.contains(x));
            }
            if flat_three(o, r) {
                assert(q2[0] == q[1] && q2[1] == q[2] && q2[2] == q[0]);
                lemma_tri_area_symmetry(xy_of(m, q[2]), xy_of(m, q[0]), xy_of(m, q[1]));
                assert(flat_three(m, q2));
            }
            q = q2;
            sp = sp2;
        }
        if ear_i == stop_i {
            break;
        }
    }
    (ear_i, Ghost(q), Ghost(zq), Ghost(f))
}

/// main ear slicing loop which triangulates a polygon (given as a linked list)
#[verifier::rlimit(100)]
#[verifier::spinoff_prover]
pub fn earcut_linked<N: Index>(
    nodes: &mut Vec<Node>,
    ear_i: usize,
    triangles: &mut Vec<N>,
    min_x: i32,
    min_y: i32,
    shift: u32,
    small_path: bool,
    sort_queue: &mut Vec<(i32, usize)>,
    pass: Pass,
    Ghost(r): Ghost<Seq<usize>>,
    Ghost(zl): Ghost<Seq<usize>>,
    Ghost(dlen): Ghost<nat>,
    Ghost(bx): Ghost<(int, int, int, int)>,
)
    requires
        arena_ok(old(nodes)@, dlen as int),
        is_ring(old(nodes)@, r),
        r[0] == ear_i,
        shift != NO_HASH ==> shift <= 49,
        z_mode_ok(old(nodes)@, r, zl, shift, pass),
        small_ok(old(nodes)@, shift, small_path, bx),
    ensures
        arena_ok(final(nodes)@, dlen as int),
        small_ok(final(nodes)@, shift, small_path, bx),
        keeps_outside(old(nodes)@, final(nodes)@, r),
        triangles_appended(old(triangles)@, final(triangles)@, dlen),
        convex_three(old(nodes)@, r) ==> final(triangles)@ == old(triangles)@ + ear_triangle::<N>(
            old(nodes)@,
            r,
        ),
        pass == Pass::P0 && flat_three(old(nodes)@, r) ==> final(triangles)@ == old(triangles)@,
        r.len() == 1 ==> final(triangles)@ == old(triangles)@,
        final(triangles)@.len() <= old(triangles)@.len() + 3 * max_triangles(r.len() as int),
        convex_four(old(nodes)@, r) ==> final(triangles)@ == old(triangles)@ + four_triangles::<N>(
            old(nodes)@,
            r,
        ),
        corners_from(old(nodes)@, r, old(triangles)@, final(triangles)@),
        pass == Pass::P0 ==> first_pass(
            old(nodes)@,
            r,
            old(triangles)@,
            final(triangles)@,
            min_x,
            min_y,
            shift,
        ),
    decreases r.len(), pass_rank(pass), 1int,
{
    let ghost o = nodes@;
    let ghost ot = triangles@;
    let mut ear_i = ear_i;
    let ghost mut zq = zl;
    if pass == Pass::P0 && shift != NO_HASH {
        let z = index_curve(nodes, ear_i, min_x, min_y, shift, sort_queue, Ghost(r));
        proof {
            zq = z@;
            assert(nodes.len() == nodes@.len());
            assert forall|i: int| 0 <= i < nodes@.len() implies (#[trigger] nodes@[i]).index < dlen by {
                let iu = i as usize;
                assert(nodes@[iu as int].index == o[iu as int].index);
            }
            assert(forall|i: usize|
                i < o.len() ==> (#[trigger] nodes@[i as int]).prev == o[i as int].prev
                    && nodes@[i as int].next == o[i as int].next);
            assert(same_links_on(o, nodes@, r));
            lemma_ring_frame(o, nodes@, r);
            assert forall|k: int| 0 <= k < r.len() implies zq.contains(#[trigger] r[k]) || z_none(
                nodes@[r[k] as int],
            ) by {
                assert(r.contains(r[k]));
            }
        }
    }
    let ghost o1 = nodes@;
    let ghost zl0 = zq;
    proof {
        lemma_shrink_refl(o1, r, zq);
        lemma_triangles_refl(ot, dlen);
        assert(keeps_outside(o, o1, r)) by {
            assert forall|i: usize| i < o.len() && !r.contains(i) implies #[trigger] o1[i as int]
                == o[i as int] by {}
            assert forall|i: usize| i < o.len() implies (#[trigger] o1[i as int]).index == o[i
                as int].index && o1[i as int].xy == o[i as int].xy by {}
        }
        assert(nodes.len() == o1.len());
        lemma_keeps_arena(o, o1, r, dlen as int, shift, small_path, bx);
        assert(o1.len() == o.len());
        if convex_four(o, r) {
            assert forall|k: int| 0 <= k < 4 implies #[trigger] xy_of(o1, r[k]) == xy_of(o, r[k]) by {
                lemma_ring_basics(o, r, k);
            }
            assert forall|k: int| 0 <= k < 4 implies #[trigger] corner_area(o1, r, k) < 0 by {
                assert(corner_area(o, r, k) < 0);
                assert(xy_of(o1, r[k]) == xy_of(o, r[k]));
                assert(xy_of(o1, r[crate::integer::nodes::pred(4, k)]) == xy_of(
                    o,
                    r[crate::integer::nodes::pred(4, k)],
                ));
                assert(xy_of(o1, r[crate::integer::nodes::succ(4, k)]) == xy_of(
                    o,
                    r[crate::integer::nodes::succ(4, k)],
                ));
            }
        }
    }
    proof {
        if pass == Pass::P0 {
            assert forall|x: usize| r.contains(x) implies r.contains(x) && (#[trigger] o1[x
                as int]).xy == o[x as int].xy && o1[x as int].index == o[x as int].index by {
                let k = r.index_of(x);
                lemma_ring_basics(o, r, k);
            }
            if shift != NO_HASH {
                assert forall|x: usize| r.contains(x) implies (#[trigger] o1[x as int]).z
                    == crate::integer::zorder::z_value(o[x as int], min_x, min_y, shift) by {
                    let k = r.index_of(x);
                    lemma_ring_basics(o, r, k);
                }
            }
            assert(clip_state(o, r, o1, r, zl0, min_x, min_y, shift));
            lemma_pass_start(o, r, ot, o1, zl0, min_x, min_y, shift);
        }
    }
    let (ear_i, Ghost(q), Ghost(zq), Ghost(f)) = clip_pass(
        nodes,
        ear_i,
        triangles,
        min_x,
        min_y,
        shift,
        small_path,
        pass,
        Ghost(o),
        Ghost(o1),
        Ghost(r),
        Ghost(zl0),
        Ghost(ot),
        Ghost(dlen),
        Ghost(bx),
    );
    let ghost m2 = nodes@;
    let ghost t_loop = triangles@;
    proof {
        if pass == Pass::P0 {
            lemma_pass_done(o, r, ot, t_loop, m2, q, zq, f, min_x, min_y, shift);
        }
        lemma_ring_basics(m2, q, 0);
        assert(nodes.len() == m2.len());
        lemma_relink_keeps(o1, m2, r, zl0, q, zq);
        lemma_keeps_trans(o, o1, m2, r, r);
    }
    if nodes[ear_i].prev == nodes[ear_i].next {
        return;
    }
    proof {
        let n = q.len() as int;
        assert(n >= 3) by {
            if n <= 2 {
                lemma_ring_basics(m2, q, n - 1);
            }
        }
    }
    let ghost t3 = triangles@;
    if pass == Pass::P0 {
        retry_filtered(
            nodes,
            ear_i,
            triangles,
            min_x,
            min_y,
            shift,
            small_path,
            sort_queue,
            Ghost(q),
            Ghost(zq),
            Ghost(dlen),
            Ghost(bx),
        );
    } else if pass == Pass::P1 {
        retry_cured(
            nodes,
            ear_i,
            triangles,
            min_x,
            min_y,
            shift,
            small_path,
            sort_queue,
            Ghost(q),
            Ghost(zq),
            Ghost(dlen),
            Ghost(bx),
        );
    } else {
        split_earcut(
            nodes,
            ear_i,
            triangles,
            min_x,
            min_y,
            shift,
            small_path,
            sort_queue,
            Ghost(q),
            Ghost(zq),
            Ghost(dlen),
            Ghost(bx),
        );
    }
    proof {
        lemma_keeps_trans(o, m2, nodes@, r, q);
        lemma_triangles_trans(ot, t3, triangles@, dlen);
        assert forall|x: usize| q.contains(x) implies #[trigger] m2[x as int].index == o[x as int].index
            by {
            assert(r.contains(x));
            let k = r.index_of(x);
            lemma_ring_basics(o, r, k);
        }
        lemma_corner_of_kept::<N>(m2, q, o, r);
        lemma_corners_lift(m2, q, o, r, t3, triangles@);
        lemma_corners_trans(o, r, ot, t3, triangles@, dlen);
        if pass == Pass::P0 {
            lemma_first_pass_extend(o, r, ot, t_loop, triangles@, min_x, min_y, shift, dlen);
        }
    }
}

/// After the first pass: filters collinear and duplicate points out of ring
/// `q` and runs the second pass on what is left.
#[verifier::rlimit(60)]
#[verifier::spinoff_prover]
fn retry_filtered<N: Index>(
    nodes: &mut Vec<Node>,
    ear_i: usize,
    triangles: &mut Vec<N>,
    min_x: i32,
    min_y: i32,
    shift: u32,
    small_path: bool,
    sort_queue: &mut Vec<(i32, usize)>,
    Ghost(q): Ghost<Seq<usize>>,
    Ghost(zq): Ghost<Seq<usize>>,
    Ghost(dlen): Ghost<nat>,
    Ghost(bx): Ghost<(int, int, int, int)>,
)
    requires
        arena_ok(old(nodes)@, dlen as int),
        is_ring(old(nodes)@, q),
        q.len() >= 3,
        q[0] == ear_i,
        shift != NO_HASH ==> shift <= 49,
        shift == NO_HASH ==> zq.len() == 0,
        z_ok(old(nodes)@, zq),
        z_covers(old(nodes)@, zq, q),
        forall|x: usize| zq.contains(x) ==> q.contains(x),
        small_ok(old(nodes)@, shift, small_path, bx),
    ensures
        arena_ok(final(nodes)@, dlen as int),
        small_ok(final(nodes)@, shift, small_path, bx),
        keeps_outside(old(nodes)@, final(nodes)@, q),
        triangles_appended(old(triangles)@, final(triangles)@, dlen),
        flat_three(old(nodes)@, q) ==> final(triangles)@ == old(triangles)@,
        final(triangles)@.len() <= old(triangles)@.len() + 3 * max_triangles(q.len() as int),
        corners_from(old(nodes)@, q, old(triangles)@, final(triangles)@),
    decreases q.len(), pass_rank(Pass::P0), 0int,
{
    let ghost m2 = nodes@;
    proof {
        assert(nodes.len() == m2.len());
    }
    let res = filter_points(nodes, ear_i, None, Ghost(q), Ghost(zq));
    let ghost m3 = nodes@;
    proof {
        if flat_three(m2, q) {
            lemma_flat_filtered(m2, m3, q, zq, res.1@, res.2@);
        }
        lemma_relink_keeps(m2, m3, q, zq, res.1@, res.2@);
        lemma_keeps_arena(m2, m3, q, dlen as int, shift, small_path, bx);
        assert forall|x: usize| res.2@.contains(x) implies res.1@.contains(x) by {
            assert(zq.contains(x));
        }
        if shift == NO_HASH && res.2@.len() > 0 {
            assert(zq.contains(res.2@[0]));
        }
    }
    earcut_linked(
        nodes,
        res.0,
        triangles,
        min_x,
        min_y,
        shift,
        small_path,
        sort_queue,
        Pass::P1,
        Ghost(res.1@),
        Ghost(res.2@),
        Ghost(dlen),
        Ghost(bx),
    );
    proof {
        lemma_keeps_trans(m2, m3, nodes@, q, res.1@);
        assert forall|x: usize| res.1@.contains(x) implies #[trigger] m3[x as int].index
            == m2[x as int].index by {
            let k = res.1@.index_of(x);
            lemma_ring_basics(m3, res.1@, k);
            assert(same_payload(m3[x as int], m2[x as int]));
        }
        lemma_corner_of_kept::<N>(m3, res.1@, m2, q);
        lemma_corners_lift(m3, res.1@, m2, q, old(triangles)@, triangles@);
    }
}

/// After the second pass: filters ring `q`, cures its small local
/// self-intersections and runs the third pass on what is left.
#[verifier::rlimit(60)]
#[verifier::spinoff_prover]
fn retry_cured<N: Index>(
    nodes: &mut Vec<Node>,
    ear_i: usize,
    triangles: &mut Vec<N>,
    min_x: i32,
    min_y: i32,
    shift: u32,
    small_path: bool,
    sort_queue: &mut Vec<(i32, usize)>,
    Ghost(q): Ghost<Seq<usize>>,
    Ghost(zq): Ghost<Seq<usize>>,
    Ghost(dlen): Ghost<nat>,
    Ghost(bx): Ghost<(int, int, int, int)>,
)
    requires
        arena_ok(old(nodes)@, dlen as int),
        is_ring(old(nodes)@, q),
        q.len() >= 3,
        q[0] == ear_i,
        shift != NO_HASH ==> shift <= 49,
        shift == NO_HASH ==> zq.len() == 0,
        z_ok(old(nodes)@, zq),
        z_covers(old(nodes)@, zq, q),
        forall|x: usize| zq.contains(x) ==> q.contains(x),
        small_ok(old(nodes)@, shift, small_path, bx),
    ensures
        arena_ok(final(nodes)@, dlen as int),
        small_ok(final(nodes)@, shift, small_path, bx),
        keeps_outside(old(nodes)@, final(nodes)@, q),
        triangles_appended(old(triangles)@, final(triangles)@, dlen),
        final(triangles)@.len() <= old(triangles)@.len() + 3 * max_triangles(q.len() as int),
        corners_from(old(nodes)@, q, old(triangles)@, final(triangles)@),
    decreases q.len(), pass_rank(Pass::P1), 0int,
{
    let ghost m2 = nodes@;
    proof {
        assert(nodes.len() == m2.len());
    }
    let filtered = filter_points(nodes, ear_i, None, Ghost(q), Ghost(zq));
    let ghost m3 = nodes@;
    proof {
        assert(nodes.len() == m3.len());
        lemma_relink_keeps(m2, m3, q, zq, filtered.1@, filtered.2@);
        lemma_keeps_arena(m2, m3, q, dlen as int, shift, small_path, bx);
    }
    let cured = cure_local_intersections(
        nodes,
        filtered.0,
        triangles,
        Ghost(filtered.1@),
        Ghost(filtered.2@),
        Ghost(dlen),
    );
    let ghost m4 = nodes@;
    proof {
        assert forall|x: usize| filtered.2@.contains(x) implies filtered.1@.contains(x) by {
            assert(zq.contains(x));
        }
        lemma_relink_keeps(m3, m4, filtered.1@, filtered.2@, cured.1@, cured.2@);
        lemma_keeps_trans(m2, m3, m4, q, filtered.1@);
        lemma_keeps_arena(m3, m4, filtered.1@, dlen as int, shift, small_path, bx);
        assert forall|x: usize| cured.2@.contains(x) implies cured.1@.contains(x) by {
            assert(filtered.2@.contains(x));
        }
        if shift == NO_HASH && cured.2@.len() > 0 {
            assert(zq.contains(cured.2@[0]));
        }
    }
    let ghost t4 = triangles@;
    earcut_linked(
        nodes,
        cured.0,
        triangles,
        min_x,
        min_y,
        shift,
        small_path,
        sort_queue,
        Pass::P2,
        Ghost(cured.1@),
        Ghost(cured.2@),
        Ghost(dlen),
        Ghost(bx),
    );
    proof {
        lemma_keeps_trans(m2, m4, nodes@, q, cured.1@);
        lemma_triangles_trans(old(triangles)@, t4, triangles@, dlen);
        lemma_cured_corners(m3, filtered.1@, old(triangles)@, t4);
        assert forall|x: usize| filtered.1@.contains(x) implies #[trigger] m3[x as int].index
            == m2[x as int].index by {
            let k = filtered.1@.index_of(x);
            lemma_ring_basics(m3, filtered.1@, k);
            assert(same_payload(m3[x as int], m2[x as int]));
        }
        lemma_corner_of_kept::<N>(m3, filtered.1@, m2, q);
        lemma_corners_lift(m3, filtered.1@, m2, q, old(triangles)@, t4);
        assert forall|x: usize| cured.1@.contains(x) implies #[trigger] m4[x as int].index
            == m2[x as int].index by {
            let k = cured.1@.index_of(x);
            lemma_ring_basics(m4, cured.1@, k);
            assert(same_payload(m4[x as int], m3[x as int]));
            assert(filtered.1@.contains(x));
            assert(same_payload(m3[x as int], m2[x as int]));
        }
        lemma_corner_of_kept::<N>(m4, cured.1@, m2, q);
        lemma_corners_lift(m4, cured.1@, m2, q, t4, triangles@);
        lemma_corners_trans(m2, q, old(triangles)@, t4, triangles@, dlen);
    }
}

/// Membership facts about the two halves of ring `r` split along the
/// diagonal from `r[0]` to `r[j]`, with copies `a2` and `b2`.
#[verifier::spinoff_prover]
proof fn lemma_split_halves(r: Seq<usize>, j: int, a2: usize, b2: usize)
    requires
        r.no_duplicates(),
        forall|k: int| 0 <= k < r.len() ==> r[k] < a2,
        a2 < b2,
        2 <= j <= r.len() - 2,
    ensures
        ({
            let r1 = seq![r[0]] + r.subrange(j, r.len() as int);
            let r2 = seq![a2] + r.subrange(1, j) + seq![b2];
            let big = r + seq![a2, b2];
            &&& forall|x: usize| r1.contains(x) ==> r.contains(x)
            &&& forall|x: usize| r.contains(x) ==> big.contains(x)
            &&& forall|x: usize| r2.contains(x) ==> r.contains(x) || x == a2 || x == b2
            &&& forall|x: usize| r2.contains(x) ==> big.contains(x)
            &&& forall|x: usize| big.contains(x) ==> r.contains(x) || x == a2 || x == b2
            &&& forall|x: usize| r1.contains(x) ==> !r2.contains(x)
        }),
{
    let n = r.len() as int;
    let r1 = seq![r[0]] + r.subrange(j, n);
    let r2 = seq![a2] + r.subrange(1, j) + seq![b2];
    let big = r + seq![a2, b2];
    assert forall|x: usize| r1.contains(x) implies r.contains(x) by {
        let k = choose|k: int| 0 <= k < r1.len() && r1[k] == x;
        if k == 0 {
            assert(r[0] == x);
        } else {
            assert(r[j + k - 1] == x);
        }
    }
    assert forall|x: usize| r.contains(x) implies big.contains(x) by {
        let k = choose|k: int| 0 <= k < r.len() && r[k] == x;
        assert(big[k] == x);
    }
    assert forall|x: usize| r2.contains(x) implies r.contains(x) || x == a2 || x == b2 by {
        let k = choose|k: int| 0 <= k < r2.len() && r2[k] == x;
        if k != 0 && k != j {
            assert(r[k] == x);
        }
    }
    assert forall|x: usize| r2.contains(x) implies big.contains(x) by {
        if x == a2 {
            assert(big[n] == a2);
        } else if x == b2 {
            assert(big[n + 1] == b2);
        } else {
            assert(r.contains(x));
        }
    }
    assert forall|x: usize| big.contains(x) implies r.contains(x) || x == a2 || x == b2 by {
        let k = choose|k: int| 0 <= k < big.len() && big[k] == x;
        if k < n {
            assert(r[k] == x);
        }
    }
    assert forall|x: usize| r1.contains(x) implies !r2.contains(x) by {
        let k = choose|k: int| 0 <= k < r1.len() && r1[k] == x;
        let i = if k == 0 {
            0
        } else {
            j + k - 1
        };
        assert(r[i] == x);
        if r2.contains(x) {
            let k2 = choose|k2: int| 0 <= k2 < r2.len() && r2[k2] == x;
            if k2 != 0 && k2 != j {
                assert(r[k2] == x);
            }
        }
    }
}

/// Splitting keeps the arena invariant and the small box, and changes only
/// the nodes of `big` (which holds both ends of the cut and their old
/// neighbours on it).
#[verifier::spinoff_prover]
pub proof fn lemma_split_arena(
    old: Seq<Node>,
    new: Seq<Node>,
    a: usize,
    b: usize,
    big: Seq<usize>,
    dlen: int,
    shift: u32,
    small_path: bool,
    bx: (int, int, int, int),
)
    requires
        arena_ok(old, dlen),
        small_ok(old, shift, small_path, bx),
        a < old.len(),
        b < old.len(),
        split_effect(old, new, a, b),
        new.len() <= usize::MAX,
        big.contains(a),
        big.contains(b),
        big.contains(old[a as int].next),
        big.contains(old[b as int].prev),
    ensures
        arena_ok(new, dlen),
        small_ok(new, shift, small_path, bx),
        keeps_outside(old, new, big),
{
    let a2 = old.len() as int;
    let b2 = old.len() + 1;
    assert(node_links_in(old[a as int], old.len() as int));
    assert(node_links_in(old[b as int], old.len() as int));
    assert forall|i: int| 0 <= i < new.len() implies node_links_in(#[trigger] new[i], new.len() as int)
        && new[i].index < dlen by {
        if i < old.len() {
            assert(node_links_in(old[i], old.len() as int));
            assert(old[i].index < dlen);
        } else if i == a2 {
        } else {
            assert(i == b2);
        }
    }
    if small_path && shift == NO_HASH {
        assert forall|i: int| 0 <= i < new.len() implies bx.0 <= (#[trigger] new[i]).xy[0] <= bx.2
            && bx.1 <= new[i].xy[1] <= bx.3 by {
            if i < old.len() {
                assert(new[i].xy == old[i].xy);
            } else if i == a2 {
                assert(new[i].xy == old[a as int].xy);
            } else {
                assert(new[i].xy == old[b as int].xy);
            }
        }
    }
    assert forall|i: usize| i < old.len() && !big.contains(i) implies #[trigger] new[i as int]
        == old[i as int] by {}
    assert forall|i: usize| i < old.len() implies (#[trigger] new[i as int]).index == old[i
        as int].index && new[i as int].xy == old[i as int].xy by {}
}

/// Splitting leaves the z-order list as it was; the two copies are in no list.
pub proof fn lemma_split_z(
    old: Seq<Node>,
    new: Seq<Node>,
    a: usize,
    b: usize,
    zl: Seq<usize>,
    q: Seq<usize>,
    q2: Seq<usize>,
)
    requires
        split_effect(old, new, a, b),
        new.len() <= usize::MAX,
        z_ok(old, zl),
        z_covers(old, zl, q),
        forall|k: int| 0 <= k < q.len() ==> q[k] < old.len(),
        forall|x: usize| q2.contains(x) ==> q.contains(x) || x == old.len() || x == old.len() + 1,
    ensures
        z_ok(new, zl),
        z_covers(new, zl, q2),
{
    assert forall|k: int| 0 <= k < zl.len() implies #[trigger] new[zl[k] as int].prev_z == old[zl[k]
        as int].prev_z && new[zl[k] as int].next_z == old[zl[k] as int].next_z by {
        assert(zl[k] < old.len());
    }
    assert forall|k: int| 0 <= k < q2.len() implies zl.contains(#[trigger] q2[k]) || z_none(
        new[q2[k] as int],
    ) by {
        let x = q2[k];
        assert(q2.contains(x));
        if q.contains(x) {
            let i = choose|i: int| 0 <= i < q.len() && q[i] == x;
            assert(zl.contains(q[i]) || z_none(old[q[i] as int]));
        }
    }
}

/// `new` holds, right after the nodes of `old`, copies of the points of the
/// nodes `a` and `b` of `old`: the two ends of a diagonal along which a ring
/// was split.
pub open spec fn split_copies(old: Seq<Node>, new: Seq<Node>, a: usize, b: usize) -> bool {
    &&& new.len() >= old.len() + 2
    &&& new[old.len() as int].index == old[a as int].index
    &&& new[old.len() as int].xy == old[a as int].xy
    &&& new[old.len() + 1int].index == old[b as int].index
    &&& new[old.len() + 1int].xy == old[b as int].xy
}

/// A diagonal from `rotate(r, ka)[0]` to `rotate(r, kb)`'s node `kb` steps on:
/// not to a neighbour, between two different vertices, and valid.
pub open spec fn split_pair(nodes: Seq<Node>, r: Seq<usize>, ka: int, kb: int) -> bool {
    let ra = rotate(r, ka);
    &&& 0 <= ka < r.len()
    &&& 2 <= kb <= r.len() - 2
    &&& nodes[ra[0] as int].index != nodes[ra[kb] as int].index
    &&& valid_diagonal_spec(nodes, ra, ra[kb])
}

/// `(ka, kb)` is the first diagonal that the split search meets: from each
/// node of `r` in turn, to each node from two steps on up to its predecessor.
pub open spec fn first_split_pair(nodes: Seq<Node>, r: Seq<usize>, ka: int, kb: int) -> bool {
    &&& split_pair(nodes, r, ka, kb)
    &&& forall|ka2: int, kb2: int|
        (ka2 < ka || (ka2 == ka && kb2 < kb)) ==> !#[trigger] split_pair(nodes, r, ka2, kb2)
}

/// Splits ring `r` along the diagonal from `r[0]` to `r[j]` and filters
/// both halves around the cut. Returns the first nodes of the two halves and
/// the halves with their z-order lists; both are smaller than `r` and share
/// no node, and with no hashing, none of their nodes is in a z-order list.
#[verifier::rlimit(100)]
#[verifier::spinoff_prover]
fn split_filtered(
    nodes: &mut Vec<Node>,
    a_i: usize,
    b_i: usize,
    Ghost(r): Ghost<Seq<usize>>,
    Ghost(j): Ghost<int>,
    Ghost(zl): Ghost<Seq<usize>>,
    Ghost(dlen): Ghost<nat>,
    Ghost(shift): Ghost<u32>,
    Ghost(small_path): Ghost<bool>,
    Ghost(bx): Ghost<(int, int, int, int)>,
) -> (res: (usize, usize, Ghost<(Seq<usize>, Seq<usize>, Seq<usize>, Seq<usize>)>))
    requires
        arena_ok(old(nodes)@, dlen as int),
        is_ring(old(nodes)@, r),
        2 <= j <= r.len() - 2,
        r[0] == a_i,
        r[j] == b_i,
        z_mode_ok(old(nodes)@, r, zl, shift, Pass::P2),
        small_ok(old(nodes)@, shift, small_path, bx),
    ensures
        arena_ok(final(nodes)@, dlen as int),
        small_ok(final(nodes)@, shift, small_path, bx),
        keeps_outside(old(nodes)@, final(nodes)@, r),
        ({
            let (q1, z1, q2, z2) = res.2@;
            &&& is_ring(final(nodes)@, q1)
            &&& q1[0] == res.0
            &&& q1.len() < r.len()
            &&& is_ring(final(nodes)@, q2)
            &&& q2[0] == res.1
            &&& q2.len() < r.len()
            &&& forall|x: usize| q1.contains(x) ==> !q2.contains(x)
            &&& forall|x: usize| q1.contains(x) ==> r.contains(x)
            &&& forall|x: usize|
                q2.contains(x) ==> r.contains(x) || x == old(nodes)@.len() || x == old(
                    nodes,
                )@.len() + 1
            &&& z_mode_ok(final(nodes)@, q1, z1, shift, Pass::P0)
            &&& z_mode_ok(final(nodes)@, q2, z2, shift, Pass::P0)
            &&& shift == NO_HASH ==> z_covers(final(nodes)@, z2, q2) && z2.len() == 0
        }),
        res.2@.0.len() <= r.len() - j + 1,
        res.2@.2.len() <= j + 1,
        split_copies(old(nodes)@, final(nodes)@, a_i, b_i),
{
    let ghost m0 = nodes@;
    let ghost n = r.len() as int;
    let ghost a2 = m0.len() as usize;
    let ghost b2 = (m0.len() + 1) as usize;
    let ghost big = r + seq![a2, b2];
    let ghost r1 = seq![a_i] + r.subrange(j, n);
    let ghost r2 = seq![a2] + r.subrange(1, j) + seq![b2];
    proof {
        lemma_ring_basics(m0, r, 0);
        lemma_ring_basics(m0, r, j);
        assert(nodes.len() == m0.len());
        assert(r.contains(r[1]));
        assert(r.contains(r[j - 1]));
        assert(r.contains(r[0]));
        assert(r.contains(r[j]));
    }
    let c_i = split_polygon(nodes, a_i, b_i);
    let ghost m1 = nodes@;
    let ghost r2c = rotate(r2, j);
    proof {
        assert(nodes.len() == m1.len());
        lemma_split_halves(r, j, a2, b2);
        lemma_ring_split(m0, m1, r, j);
        lemma_split_arena(m0, m1, a_i, b_i, big, dlen as int, shift, small_path, bx);
        lemma_rotate(m1, r2, j);
        assert forall|x: usize| r2c.contains(x) implies r2.contains(x) by {
            assert(r2c.to_set().contains(x));
        }
        lemma_split_z(m0, m1, a_i, b_i, zl, r, r1);
        lemma_split_z(m0, m1, a_i, b_i, zl, r, r2c);
        lemma_ring_basics(m1, r1, 0);
        assert(split_copies(m0, m1, a_i, b_i));
    }
    let a_next = nodes[a_i].next;
    let f1 = filter_points(nodes, a_i, Some(a_next), Ghost(r1), Ghost(zl));
    assert(f1.1@.len() <= n - j + 1);
    let ghost m2 = nodes@;
    proof {
        assert(r1.contains(r1[1]));
        lemma_relink_keeps_within(m1, m2, r1, zl, f1.1@, f1.2@, big);
        lemma_keeps_arena(m1, m2, big, dlen as int, shift, small_path, bx);
        assert forall|k: int| 0 <= k < r2c.len() implies (#[trigger] m2[r2c[k] as int]).prev
            == m1[r2c[k] as int].prev && m2[r2c[k] as int].next == m1[r2c[k] as int].next by {
            assert(r2c.contains(r2c[k]));
            lemma_ring_basics(m1, r2c, k);
        }
        lemma_ring_frame(m1, m2, r2c);
        assert forall|k: int| 0 <= k < r2c.len() implies f1.2@.contains(#[trigger] r2c[k])
            || z_none(m2[r2c[k] as int]) by {
            assert(r2c.contains(r2c[k]));
            lemma_ring_basics(m1, r2c, k);
        }
        lemma_ring_basics(m2, r2c, 0);
        assert(r2c.contains(r2c[1]));
    }
    let c_next = nodes[c_i].next;
    let f2 = filter_points(nodes, c_i, Some(c_next), Ghost(r2c), Ghost(f1.2@));
    assert(f2.1@.len() <= j + 1) by {
        assert(r2c.len() == r2.len());
    }
    let ghost m3 = nodes@;
    proof {
        assert forall|x: usize| f1.2@.contains(x) implies big.contains(x) by {
            assert(zl.contains(x));
        }
        lemma_relink_keeps_within(m2, m3, r2c, f1.2@, f2.1@, f2.2@, big);
        lemma_keeps_arena(m2, m3, big, dlen as int, shift, small_path, bx);
        assert forall|k: int| 0 <= k < f1.1@.len() implies (#[trigger] m3[f1.1@[k] as int]).prev
            == m2[f1.1@[k] as int].prev && m3[f1.1@[k] as int].next == m2[f1.1@[k] as int].next by {
            let x = f1.1@[k];
            assert(f1.1@.contains(x));
            assert(r1.contains(x));
            assert(!r2c.contains(x));
            lemma_ring_basics(m2, f1.1@, k);
        }
        lemma_ring_frame(m2, m3, f1.1@);
        if shift == NO_HASH {
            if f1.2@.len() > 0 {
                assert(zl.contains(f1.2@[0]));
            }
            if f2.2@.len() > 0 {
                assert(f1.2@.contains(f2.2@[0]));
            }
            assert forall|k: int| 0 <= k < f1.1@.len() implies f1.2@.contains(#[trigger] f1.1@[k])
                || z_none(m3[f1.1@[k] as int]) by {
                let x = f1.1@[k];
                assert(f1.1@.contains(x));
                assert(r1.contains(x));
                assert(!r2c.contains(x));
                lemma_ring_basics(m2, f1.1@, k);
            }
        }
        assert forall|x: usize| f1.1@.contains(x) implies !f2.1@.contains(x) by {
            assert(r1.contains(x));
            if f2.1@.contains(x) {
                assert(r2c.contains(x));
                assert(r2.contains(x));
            }
        }
        assert forall|x: usize| f1.1@.contains(x) implies r.contains(x) by {
            assert(r1.contains(x));
        }
        assert forall|x: usize| f2.1@.contains(x) implies r.contains(x) || x == m0.len() || x
            == m0.len() + 1 by {
            assert(r2c.contains(x));
            assert(r2.contains(x));
        }
        lemma_keeps_trans(m0, m1, m2, big, big);
        lemma_keeps_trans(m0, m2, m3, big, big);
        lemma_keeps_refl(m0, r);
        lemma_keeps_trans(m0, m0, m3, r, big);
    }
    assert(split_copies(m0, m3, a_i, b_i)) by {
        assert(m2[a2 as int].index == m1[a2 as int].index && m2[a2 as int].xy == m1[a2 as int].xy);
        assert(m2[b2 as int].index == m1[b2 as int].index && m2[b2 as int].xy == m1[b2 as int].xy);
        assert(m3[a2 as int].index == m2[a2 as int].index && m3[a2 as int].xy == m2[a2 as int].xy);
        assert(m3[b2 as int].index == m2[b2 as int].index && m3[b2 as int].xy == m2[b2 as int].xy);
    }
    (f1.0, f2.0, Ghost((f1.1@, f1.2@, f2.1@, f2.2@)))
}

/// Splits ring `r` along the diagonal from `r[0]` to `r[j]` and triangulates
/// both halves.
#[verifier::rlimit(80)]
#[verifier::spinoff_prover]
fn split_along<N: Index>(
    nodes: &mut Vec<Node>,
    a_i: usize,
    b_i: usize,
    triangles: &mut Vec<N>,
    min_x: i32,
    min_y: i32,
    shift: u32,
    small_path: bool,
    sort_queue: &mut Vec<(i32, usize)>,
    Ghost(r): Ghost<Seq<usize>>,
    Ghost(j): Ghost<int>,
    Ghost(zl): Ghost<Seq<usize>>,
    Ghost(dlen): Ghost<nat>,
    Ghost(bx): Ghost<(int, int, int, int)>,
)
    requires
        arena_ok(old(nodes)@, dlen as int),
        is_ring(old(nodes)@, r),
        2 <= j <= r.len() - 2,
        r[0] == a_i,
        r[j] == b_i,
        shift != NO_HASH ==> shift <= 49,
        z_mode_ok(old(nodes)@, r, zl, shift, Pass::P2),
        small_ok(old(nodes)@, shift, small_path, bx),
    ensures
        arena_ok(final(nodes)@, dlen as int),
        small_ok(final(nodes)@, shift, small_path, bx),
        keeps_outside(old(nodes)@, final(nodes)@, r),
        triangles_appended(old(triangles)@, final(triangles)@, dlen),
        split_copies(old(nodes)@, final(nodes)@, a_i, b_i),
        final(triangles)@.len() <= old(triangles)@.len() + 3 * max_triangles(r.len() as int),
        corners_from(old(nodes)@, r, old(triangles)@, final(triangles)@),
    decreases r.len(), 1int, 0int,
{
    let ghost m0 = nodes@;
    let ghost ot = triangles@;
    let (s1, s2, Ghost(halves)) = split_filtered(
        nodes,
        a_i,
        b_i,
        Ghost(r),
        Ghost(j),
        Ghost(zl),
        Ghost(dlen),
        Ghost(shift),
        Ghost(small_path),
        Ghost(bx),
    );
    let ghost (q1, z1, q2, z2) = halves;
    let ghost m3 = nodes@;
    earcut_linked(
        nodes,
        s1,
        triangles,
        min_x,
        min_y,
        shift,
        small_path,
        sort_queue,
        Pass::P0,
        Ghost(q1),
        Ghost(z1),
        Ghost(dlen),
        Ghost(bx),
    );
    let ghost m4 = nodes@;
    let ghost t4 = triangles@;
    proof {
        assert forall|k: int| 0 <= k < q2.len() implies #[trigger] m4[q2[k] as int] == m3[q2[k]
            as int] by {
            assert(q2.contains(q2[k]));
            assert(!q1.contains(q2[k]));
            lemma_ring_basics(m3, q2, k);
        }
        lemma_ring_frame(m3, m4, q2);
        if shift == NO_HASH {
            assert forall|k: int| 0 <= k < q2.len() implies z2.contains(#[trigger] q2[k]) || z_none(
                m4[q2[k] as int],
            ) by {
                assert(m4[q2[k] as int] == m3[q2[k] as int]);
            }
        }
    }
    earcut_linked(
        nodes,
        s2,
        triangles,
        min_x,
        min_y,
        shift,
        small_path,
        sort_queue,
        Pass::P0,
        Ghost(q2),
        Ghost(z2),
        Ghost(dlen),
        Ghost(bx),
    );
    proof {
        lemma_keeps_trans(m0, m3, m4, r, q1);
        lemma_keeps_trans(m0, m4, nodes@, r, q2);
        lemma_triangles_trans(ot, t4, triangles@, dlen);
        assert(nodes.len() == nodes@.len());
        let a2 = m0.len() as usize;
        let b2 = (m0.len() + 1) as usize;
        assert(m4[a2 as int].index == m3[a2 as int].index && m4[a2 as int].xy == m3[a2 as int].xy);
        assert(m4[b2 as int].index == m3[b2 as int].index && m4[b2 as int].xy == m3[b2 as int].xy);
        assert(nodes@[a2 as int].index == m4[a2 as int].index && nodes@[a2 as int].xy
            == m4[a2 as int].xy);
        assert(nodes@[b2 as int].index == m4[b2 as int].index && nodes@[b2 as int].xy
            == m4[b2 as int].xy);
        lemma_ring_basics(m0, r, 0);
        lemma_ring_basics(m0, r, j);
        assert(r.contains(r[0]) && r.contains(r[j]));
        assert forall|x: usize| q1.contains(x) implies #[trigger] corner_of::<N>(
            m0,
            r,
            N::from_nat(m3[x as int].index as nat),
        ) by {
            let k = r.index_of(x);
            lemma_ring_basics(m0, r, k);
        }
        lemma_corners_lift(m3, q1, m0, r, ot, t4);
        assert forall|x: usize| q2.contains(x) implies #[trigger] corner_of::<N>(
            m0,
            r,
            N::from_nat(m4[x as int].index as nat),
        ) by {
            if r.contains(x) {
                let k = r.index_of(x);
                lemma_ring_basics(m0, r, k);
                assert(m4[x as int].index == m3[x as int].index);
            } else if x == a2 {
                assert(m4[a2 as int].index == m3[a2 as int].index);
            } else {
                assert(x == b2);
                assert(m4[b2 as int].index == m3[b2 as int].index);
            }
        }
        lemma_corners_lift(m4, q2, m0, r, t4, triangles@);
        lemma_corners_trans(m0, r, ot, t4, triangles@, dlen);
    }
}

/// try splitting polygon into two and triangulate them independently
#[verifier::spinoff_prover]
pub fn split_earcut<N: Index>(
    nodes: &mut Vec<Node>,
    start_i: usize,
    triangles: &mut Vec<N>,
    min_x: i32,
    min_y: i32,
    shift: u32,
    small_path: bool,
    sort_queue: &mut Vec<(i32, usize)>,
    Ghost(r): Ghost<Seq<usize>>,
    Ghost(zl): Ghost<Seq<usize>>,
    Ghost(dlen): Ghost<nat>,
    Ghost(bx): Ghost<(int, int, int, int)>,
)
    requires
        arena_ok(old(nodes)@, dlen as int),
        is_ring(old(nodes)@, r),
        r.len() >= 3,
        r[0] == start_i,
        shift != NO_HASH ==> shift <= 49,
        z_mode_ok(old(nodes)@, r, zl, shift, Pass::P2),
        small_ok(old(nodes)@, shift, small_path, bx),
    ensures
        arena_ok(final(nodes)@, dlen as int),
        small_ok(final(nodes)@, shift, small_path, bx),
        keeps_outside(old(nodes)@, final(nodes)@, r),
        triangles_appended(old(triangles)@, final(triangles)@, dlen),
        (forall|ka: int, kb: int| !#[trigger] split_pair(old(nodes)@, r, ka, kb)) ==> final(nodes)@
            == old(nodes)@ && final(triangles)@ == old(triangles)@,
        (exists|ka: int, kb: int| #[trigger] split_pair(old(nodes)@, r, ka, kb)) ==> exists|
            ka: int,
            kb: int,
        |
            #[trigger] first_split_pair(old(nodes)@, r, ka, kb) && split_copies(
                old(nodes)@,
                final(nodes)@,
                rotate(r, ka)[0],
                rotate(r, ka)[kb],
            ),
        final(triangles)@.len() <= old(triangles)@.len() + 3 * max_triangles(r.len() as int),
        corners_from(old(nodes)@, r, old(triangles)@, final(triangles)@),
    decreases r.len(), 1int, 1int,
{
    let ghost o = nodes@;
    let ghost n = r.len() as int;
    let mut a_i = start_i;
    let ghost mut ka: int = 0;
    loop
        invariant
            nodes@ == o,
            o == old(nodes)@,
            triangles@ == old(triangles)@,
            arena_ok(o, dlen as int),
            is_ring(o, r),
            n == r.len(),
            n >= 3,
            r[0] == start_i,
            0 <= ka < n,
            a_i == r[ka],
            shift != NO_HASH ==> shift <= 49,
            z_mode_ok(o, r, zl, shift, Pass::P2),
            small_ok(o, shift, small_path, bx),
            forall|ka2: int, kb2: int| ka2 < ka ==> !#[trigger] split_pair(o, r, ka2, kb2),
        decreases n - ka,
    {
        let ghost ra = rotate(r, ka);
        proof {
            lemma_rotate(o, r, ka);
            lemma_ring_basics(o, ra, 0);
            lemma_ring_basics(o, ra, 1);
            lemma_ring_basics(o, ra, n - 1);
            assert forall|x: usize| ra.contains(x) implies r.contains(x) by {
                assert(ra.to_set().contains(x));
            }
            assert forall|x: usize| r.contains(x) implies ra.contains(x) by {
                assert(r.to_set().contains(x));
            }
            lemma_z_covers_same_set(o, zl, r, ra);
        }
        let a = nodes[a_i];
        let a_next = a.next;
        let a_prev = a.prev;
        let mut b_i = nodes[a_next].next;
        let ghost mut kb: int = 2;
        while b_i != a_prev
            invariant
                nodes@ == o,
                o == old(nodes)@,
                triangles@ == old(triangles)@,
                arena_ok(o, dlen as int),
                is_ring(o, ra),
                ra.len() == n,
                n == r.len(),
                n >= 3,
                ra[0] == a_i,
                a == o[a_i as int],
                a_next == ra[1],
                a_prev == ra[n - 1],
                2 <= kb <= n - 1,
                b_i == ra[kb],
                forall|x: usize| ra.contains(x) ==> r.contains(x),
                shift != NO_HASH ==> shift <= 49,
                z_mode_ok(o, ra, zl, shift, Pass::P2),
                small_ok(o, shift, small_path, bx),
                ra == rotate(r, ka),
                0 <= ka < n,
                forall|ka2: int, kb2: int| ka2 < ka ==> !#[trigger] split_pair(o, r, ka2, kb2),
                forall|kb2: int| kb2 < kb ==> !#[trigger] split_pair(o, r, ka, kb2),
            decreases n - kb,
        {
            proof {
                lemma_ring_basics(o, ra, kb);
                assert(kb != n - 1);
            }
            let b = nodes[b_i];
            if a.index != b.index && is_valid_diagonal(nodes, a_i, b_i, a_next, a_prev, Ghost(ra)) {
                split_along(
                    nodes,
                    a_i,
                    b_i,
                    triangles,
                    min_x,
                    min_y,
                    shift,
                    small_path,
                    sort_queue,
                    Ghost(ra),
                    Ghost(kb),
                    Ghost(zl),
                    Ghost(dlen),
                    Ghost(bx),
                );
                proof {
                    lemma_keeps_trans(o, o, nodes@, r, ra);
                    assert(split_pair(o, r, ka, kb));
                    assert(first_split_pair(o, r, ka, kb));
                    lemma_corner_of_kept::<N>(o, ra, o, r);
                    lemma_corners_lift(o, ra, o, r, old(triangles)@, triangles@);
                }
                return;
            }
            proof {
                assert(!split_pair(o, r, ka, kb));
                lemma_ring_basics(o, ra, kb);
            }
            b_i = b.next;
            proof {
                kb = kb + 1;
            }
        }
        proof {
            assert forall|kb2: int| !#[trigger] split_pair(o, r, ka, kb2) by {
                if kb2 >= kb {
                    assert(kb == n - 1);
                }
            }
        }
        a_i = a_next;
        if a_i == start_i {
            proof {
                lemma_keeps_refl(o, r);
                lemma_triangles_refl(triangles@, dlen);
                lemma_corners_refl(o, r, triangles@);
                assert(ka == n - 1) by {
                    lemma_ring_basics(o, ra, 1);
                    if ka + 1 < n {
                        assert(ra[1] == r[ka + 1]);
                        assert(r[0] == r[ka + 1]);
                    }
                }
                assert forall|ka2: int, kb2: int| !#[trigger] split_pair(o, r, ka2, kb2) by {
                    if ka2 == ka {
                    } else if ka2 >= n {
                    }
                }
            }
            return;
        }
        proof {
            if ka + 1 == n {
                assert(ra[1] == r[0]);
            }
            ka = ka + 1;
        }
    }
}

} // verus!
