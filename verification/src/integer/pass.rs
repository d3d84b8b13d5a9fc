//! What the first pass of ear clipping records: each triangle it cuts was
//! an ear of the ring as it stood, one node is taken off per cut, and the
//! pass stops only on a ring none of whose nodes is an ear.
use vstd::prelude::*;

use crate::integer::clip::{ear_triangle, NO_HASH};
use crate::integer::cure::appended_triangle;
use crate::integer::ears::{hashed_ear_spec, is_ear_spec, z_sorted_ring};
use crate::integer::nodes::{is_ring, lemma_ring_basics, lemma_rotate, rotate, z_ok, zl_without, Node};
use crate::integer::zorder::z_value;
use crate::integer::{triangles_appended, Index};

verus! {

/// The ear test that clipping applies to ring `q` of arena `m`: the exact
/// test without hashing, else the test over the z-order list `zq`.
pub open spec fn ear_test(
    m: Seq<Node>,
    q: Seq<usize>,
    zq: Seq<usize>,
    min_x: i32,
    min_y: i32,
    shift: u32,
) -> bool {
    if shift == NO_HASH {
        is_ear_spec(m, q)
    } else {
        hashed_ear_spec(m, q, zq, min_x, min_y, shift)
    }
}

/// `q` is a ring of arena `m` made of nodes of ring `r` of arena `o`, with
/// their points and vertex indices; with hashing, `zq` lists exactly the
/// nodes of `q` in non-decreasing z, with the z values that `index_curve`
/// gives them.
pub open spec fn clip_state(
    o: Seq<Node>,
    r: Seq<usize>,
    m: Seq<Node>,
    q: Seq<usize>,
    zq: Seq<usize>,
    min_x: i32,
    min_y: i32,
    shift: u32,
) -> bool {
    &&& is_ring(m, q)
    &&& forall|x: usize|
        q.contains(x) ==> r.contains(x) && (#[trigger] m[x as int]).xy == o[x as int].xy
            && m[x as int].index == o[x as int].index
    &&& shift != NO_HASH ==> {
        &&& z_ok(m, zq)
        &&& z_sorted_ring(m, zq, q)
        &&& forall|x: usize|
            q.contains(x) ==> (#[trigger] m[x as int]).z == z_value(o[x as int], min_x, min_y, shift)
    }
}

/// `tri` was cut as an ear of a ring made of nodes of ring `r`: the ear test
/// accepted the ring's first node, and `tri` is that node with its two
/// neighbours.
pub open spec fn ear_cut<N: Index>(
    o: Seq<Node>,
    r: Seq<usize>,
    tri: Seq<N>,
    min_x: i32,
    min_y: i32,
    shift: u32,
) -> bool {
    exists|m: Seq<Node>, q: Seq<usize>, zq: Seq<usize>|
        #[trigger] clip_state(o, r, m, q, zq, min_x, min_y, shift) && q.len() >= 3 && ear_test(
            m,
            q,
            zq,
            min_x,
            min_y,
            shift,
        ) && tri == ear_triangle::<N>(m, q)
}

/// The first `c` triangles that `t` has beyond `t0` were cut as ears, one
/// node of `r` each, leaving ring `qe` of arena `m`; and the ear test
/// accepts none of the nodes of `qe` (or `qe` has fewer than three).
pub open spec fn pass_result<N: Index>(
    o: Seq<Node>,
    r: Seq<usize>,
    t0: Seq<N>,
    t: Seq<N>,
    c: int,
    m: Seq<Node>,
    qe: Seq<usize>,
    ze: Seq<usize>,
    min_x: i32,
    min_y: i32,
    shift: u32,
) -> bool {
    &&& 0 <= c
    &&& t0.len() + 3 * c <= t.len()
    &&& qe.len() + c == r.len()
    &&& clip_state(o, r, m, qe, ze, min_x, min_y, shift)
    &&& qe.len() >= 3 ==> forall|j: int|
        0 <= j < qe.len() ==> !#[trigger] ear_test(m, rotate(qe, j), ze, min_x, min_y, shift)
    &&& forall|j: int|
        0 <= j < c ==> #[trigger] ear_cut(o, r, appended_triangle(t0, t, j), min_x, min_y, shift)
}

/// The first pass of clipping ring `r` of arena `o` went as `pass_result`
/// describes, for some count of cuts and some final ring.
pub open spec fn first_pass<N: Index>(
    o: Seq<Node>,
    r: Seq<usize>,
    t0: Seq<N>,
    t: Seq<N>,
    min_x: i32,
    min_y: i32,
    shift: u32,
) -> bool {
    exists|c: int, m: Seq<Node>, qe: Seq<usize>, ze: Seq<usize>|
        #[trigger] pass_result(o, r, t0, t, c, m, qe, ze, min_x, min_y, shift)
}

/// What the clipping loop knows while it runs: the cuts so far, the ring
/// and list left, and that the last `f` nodes before the current one (in
/// ring order) were tested and not accepted.
#[verifier::opaque]
pub open spec fn pass_record<N: Index>(
    o: Seq<Node>,
    r: Seq<usize>,
    t0: Seq<N>,
    t: Seq<N>,
    m: Seq<Node>,
    q: Seq<usize>,
    zq: Seq<usize>,
    f: int,
    min_x: i32,
    min_y: i32,
    shift: u32,
) -> bool {
    let c = (t.len() - t0.len()) / 3;
    &&& t.len() >= t0.len()
    &&& (t.len() - t0.len()) % 3 == 0
    &&& q.len() + c == r.len()
    &&& clip_state(o, r, m, q, zq, min_x, min_y, shift)
    &&& 0 <= f <= q.len()
    &&& forall|j: int|
        q.len() - f <= j < q.len() ==> !#[trigger] ear_test(m, rotate(q, j), zq, min_x, min_y, shift)
    &&& forall|j: int|
        0 <= j < c ==> #[trigger] ear_cut(o, r, appended_triangle(t0, t, j), min_x, min_y, shift)
}

/// Reading a ring from its second node, then `j` more, is reading it from
/// node `j + 1`.
pub proof fn lemma_rotate_twice(q: Seq<usize>, j: int)
    requires
        q.len() >= 1,
        0 <= j < q.len(),
    ensures
        rotate(rotate(q, 1), j) == rotate(q, if j + 1 < q.len() {
            j + 1
        } else {
            0
        }),
{
    let n = q.len() as int;
    let k = if j + 1 < n {
        j + 1
    } else {
        0
    };
    let a = rotate(rotate(q, 1), j);
    let b = rotate(q, k);
    assert(rotate(q, 1).len() == n);
    assert forall|i: int| 0 <= i < n implies a[i] == b[i] by {
        let i1 = if j + i < n {
            j + i
        } else {
            j + i - n
        };
        let i2 = if 1 + i1 < n {
            1 + i1
        } else {
            1 + i1 - n
        };
        assert(a[i] == rotate(q, 1)[i1]);
        assert(rotate(q, 1)[i1] == q[i2]);
        let i3 = if k + i < n {
            k + i
        } else {
            k + i - n
        };
        assert(b[i] == q[i3]);
    }
    assert(a =~= b);
}

/// Moving on to the next node keeps the state: the ring read from its
/// second node is the same ring.
pub proof fn lemma_clip_state_rotate(
    o: Seq<Node>,
    r: Seq<usize>,
    m: Seq<Node>,
    q: Seq<usize>,
    zq: Seq<usize>,
    min_x: i32,
    min_y: i32,
    shift: u32,
    k: int,
)
    requires
        clip_state(o, r, m, q, zq, min_x, min_y, shift),
        0 <= k < q.len(),
    ensures
        clip_state(o, r, m, rotate(q, k), zq, min_x, min_y, shift),
{
    lemma_rotate(m, q, k);
    let q2 = rotate(q, k);
    assert forall|x: usize| q2.contains(x) <==> q.contains(x) by {
        if q2.contains(x) {
            assert(q2.to_set().contains(x));
        }
        if q.contains(x) {
            assert(q.to_set().contains(x));
        }
    }
}

/// The record at the start of the loop: nothing cut and nothing tested.
pub proof fn lemma_pass_start<N: Index>(
    o: Seq<Node>,
    r: Seq<usize>,
    t0: Seq<N>,
    m: Seq<Node>,
    zq: Seq<usize>,
    min_x: i32,
    min_y: i32,
    shift: u32,
)
    requires
        clip_state(o, r, m, r, zq, min_x, min_y, shift),
    ensures
        pass_record(o, r, t0, t0, m, r, zq, 0, min_x, min_y, shift),
{
    reveal(pass_record);
}

/// The ear test did not accept the current node: the loop moves on.
pub proof fn lemma_pass_advance<N: Index>(
    o: Seq<Node>,
    r: Seq<usize>,
    t0: Seq<N>,
    t: Seq<N>,
    m: Seq<Node>,
    q: Seq<usize>,
    zq: Seq<usize>,
    f: int,
    min_x: i32,
    min_y: i32,
    shift: u32,
)
    requires
        pass_record(o, r, t0, t, m, q, zq, f, min_x, min_y, shift),
        q.len() >= 3,
        f < q.len(),
        !ear_test(m, q, zq, min_x, min_y, shift),
    ensures
        pass_record(o, r, t0, t, m, rotate(q, 1), zq, f + 1, min_x, min_y, shift),
{
    reveal(pass_record);
    let n = q.len() as int;
    let q2 = rotate(q, 1);
    lemma_clip_state_rotate(o, r, m, q, zq, min_x, min_y, shift, 1);
    assert(rotate(q, 0) =~= q);
    assert forall|j: int| n - (f + 1) <= j < n implies !#[trigger] ear_test(
        m,
        rotate(q2, j),
        zq,
        min_x,
        min_y,
        shift,
    ) by {
        lemma_rotate_twice(q, j);
        if j + 1 < n {
            assert(!ear_test(m, rotate(q, j + 1), zq, min_x, min_y, shift));
        }
    }
}

/// Taking off the first node of a ring leaves the others.
proof fn lemma_drop_ring(q: Seq<usize>)
    requires
        q.len() >= 3,
        q.no_duplicates(),
    ensures
        forall|x: usize| #[trigger] rotate(q.drop_first(), 1).contains(x) <==> q.contains(x) && x != q[0],
{
    let n = q.len() as int;
    let q3 = rotate(q.drop_first(), 1);
    let d = q.drop_first();
    assert forall|x: usize| #[trigger] q3.contains(x) <==> q.contains(x) && x != q[0] by {
        if q3.contains(x) {
            let i = choose|i: int| 0 <= i < q3.len() && q3[i] == x;
            let i1 = if 1 + i < n - 1 {
                1 + i
            } else {
                1 + i - (n - 1)
            };
            assert(q3[i] == d[i1]);
            assert(d[i1] == q[i1 + 1]);
        }
        if q.contains(x) && x != q[0] {
            let i = choose|i: int| 0 <= i < q.len() && q[i] == x;
            let i1 = if i >= 2 {
                i - 2
            } else {
                n - 2
            };
            assert(q3[i1] == x);
        }
    }
}

/// Taking a node off a z-order list keeps the others, in their order.
proof fn lemma_drop_z(m: Seq<Node>, m2: Seq<Node>, zq: Seq<usize>, p: usize)
    requires
        zq.contains(p),
        zq.no_duplicates(),
        forall|i: int, j: int| 0 <= i <= j < zq.len() ==> m[zq[i] as int].z <= m[zq[j] as int].z,
        forall|x: usize| zq.contains(x) && x != p ==> #[trigger] m2[x as int].z == m[x as int].z,
    ensures
        forall|x: usize| #[trigger] zl_without(zq, p).contains(x) <==> zq.contains(x) && x != p,
        forall|i: int, j: int|
            0 <= i <= j < zl_without(zq, p).len() ==> m2[zl_without(zq, p)[i] as int].z <= m2[zl_without(
                zq,
                p,
            )[j] as int].z,
{
    let zq2 = zl_without(zq, p);
    let kz = zq.index_of(p);
    assert forall|x: usize| #[trigger] zq2.contains(x) <==> zq.contains(x) && x != p by {
        if zq2.contains(x) {
            let i = choose|i: int| 0 <= i < zq2.len() && zq2[i] == x;
            if i < kz {
                assert(zq[i] == x);
            } else {
                assert(zq[i + 1] == x);
            }
        }
        if zq.contains(x) && x != p {
            let i = choose|i: int| 0 <= i < zq.len() && zq[i] == x;
            if i < kz {
                assert(zq2[i] == x);
            } else {
                assert(zq2[i - 1] == x);
            }
        }
    }
    assert forall|i: int, j: int| 0 <= i <= j < zq2.len() implies m2[zq2[i] as int].z <= m2[
        zq2[j] as int].z by {
        let i0 = if i < kz {
            i
        } else {
            i + 1
        };
        let j0 = if j < kz {
            j
        } else {
            j + 1
        };
        assert(zq2[i] == zq[i0]);
        assert(zq2[j] == zq[j0]);
        assert(zq.contains(zq[i0]) && zq.contains(zq[j0]));
    }
}

/// The ring left after a cut, with the list left, is again a state of the
/// clipping.
#[verifier::spinoff_prover]
proof fn lemma_cut_state(
    o: Seq<Node>,
    r: Seq<usize>,
    m: Seq<Node>,
    m2: Seq<Node>,
    q: Seq<usize>,
    zq: Seq<usize>,
    min_x: i32,
    min_y: i32,
    shift: u32,
)
    requires
        clip_state(o, r, m, q, zq, min_x, min_y, shift),
        q.len() >= 3,
        is_ring(m2, rotate(q.drop_first(), 1)),
        forall|x: usize| q.contains(x) && x != q[0] ==> #[trigger] m2[x as int].xy == m[x as int].xy
            && m2[x as int].index == m[x as int].index && m2[x as int].z == m[x as int].z,
        shift != NO_HASH ==> z_ok(m2, zl_without(zq, q[0])),
    ensures
        clip_state(o, r, m2, rotate(q.drop_first(), 1), zl_without(zq, q[0]), min_x, min_y, shift),
{
    let q3 = rotate(q.drop_first(), 1);
    lemma_drop_ring(q);
    assert forall|x: usize| q3.contains(x) implies r.contains(x) && (#[trigger] m2[x as int]).xy
        == o[x as int].xy && m2[x as int].index == o[x as int].index by {
        assert(q.contains(x));
        assert(m[x as int].xy == o[x as int].xy);
    }
    if shift != NO_HASH {
        assert(q.contains(q[0]));
        assert(zq.contains(q[0]));
        assert(zq.no_duplicates());
        assert forall|x: usize| zq.contains(x) && x != q[0] implies #[trigger] m2[x as int].z
            == m[x as int].z by {
            assert(q.contains(x));
        }
        lemma_drop_z(m, m2, zq, q[0]);
        let zq2 = zl_without(zq, q[0]);
        assert forall|x: usize| q3.contains(x) implies (#[trigger] m2[x as int]).z == z_value(
            o[x as int],
            min_x,
            min_y,
            shift,
        ) by {
            assert(q.contains(x));
            assert(m[x as int].z == z_value(o[x as int], min_x, min_y, shift));
        }
        assert forall|x: usize| zq2.contains(x) <==> q3.contains(x) by {
            assert(zq2.contains(x) == (zq.contains(x) && x != q[0]));
            assert(q3.contains(x) == (q.contains(x) && x != q[0]));
        }
    }
}

/// The ear test accepted the current node, which was cut off with its
/// triangle: the loop goes on from the ring left, having tested nothing in
/// it yet.
pub proof fn lemma_pass_cut<N: Index>(
    o: Seq<Node>,
    r: Seq<usize>,
    t0: Seq<N>,
    t: Seq<N>,
    t2: Seq<N>,
    m: Seq<Node>,
    m2: Seq<Node>,
    q: Seq<usize>,
    zq: Seq<usize>,
    f: int,
    min_x: i32,
    min_y: i32,
    shift: u32,
)
    requires
        pass_record(o, r, t0, t, m, q, zq, f, min_x, min_y, shift),
        q.len() >= 3,
        ear_test(m, q, zq, min_x, min_y, shift),
        t2 == t + ear_triangle::<N>(m, q),
        is_ring(m2, rotate(q.drop_first(), 1)),
        forall|x: usize| q.contains(x) && x != q[0] ==> #[trigger] m2[x as int].xy == m[x as int].xy
            && m2[x as int].index == m[x as int].index && m2[x as int].z == m[x as int].z,
        shift != NO_HASH ==> z_ok(m2, zl_without(zq, q[0])),
    ensures
        pass_record(
            o,
            r,
            t0,
            t2,
            m2,
            rotate(q.drop_first(), 1),
            zl_without(zq, q[0]),
            0,
            min_x,
            min_y,
            shift,
        ),
{
    reveal(pass_record);
    let c = (t.len() - t0.len()) / 3;
    lemma_cut_state(o, r, m, m2, q, zq, min_x, min_y, shift);
    assert(ear_cut(o, r, ear_triangle::<N>(m, q), min_x, min_y, shift));
    assert((t2.len() - t0.len()) / 3 == c + 1);
    assert forall|j: int| 0 <= j < c + 1 implies #[trigger] ear_cut(
        o,
        r,
        appended_triangle(t0, t2, j),
        min_x,
        min_y,
        shift,
    ) by {
        if j < c {
            assert(appended_triangle(t0, t2, j) =~= appended_triangle(t0, t, j));
        } else {
            assert(appended_triangle(t0, t2, j) =~= ear_triangle::<N>(m, q));
        }
    }
}

/// When the loop stops (on a ring of fewer than three nodes, or after
/// testing every node of the ring without a cut), the first pass is done.
pub proof fn lemma_pass_done<N: Index>(
    o: Seq<Node>,
    r: Seq<usize>,
    t0: Seq<N>,
    t: Seq<N>,
    m: Seq<Node>,
    q: Seq<usize>,
    zq: Seq<usize>,
    f: int,
    min_x: i32,
    min_y: i32,
    shift: u32,
)
    requires
        pass_record(o, r, t0, t, m, q, zq, f, min_x, min_y, shift),
        q.len() < 3 || f == q.len(),
    ensures
        first_pass(o, r, t0, t, min_x, min_y, shift),
{
    reveal(pass_record);
    let c = (t.len() - t0.len()) / 3;
    assert(pass_result(o, r, t0, t, c, m, q, zq, min_x, min_y, shift));
}

/// Later triangles do not change what the first pass recorded.
pub proof fn lemma_first_pass_extend<N: Index>(
    o: Seq<Node>,
    r: Seq<usize>,
    t0: Seq<N>,
    t: Seq<N>,
    t2: Seq<N>,
    min_x: i32,
    min_y: i32,
    shift: u32,
    dlen: nat,
)
    requires
        first_pass(o, r, t0, t, min_x, min_y, shift),
        triangles_appended(t, t2, dlen),
    ensures
        first_pass(o, r, t0, t2, min_x, min_y, shift),
{
    let (c, m, qe, ze) = choose|c: int, m: Seq<Node>, qe: Seq<usize>, ze: Seq<usize>|
        #[trigger] pass_result(o, r, t0, t, c, m, qe, ze, min_x, min_y, shift);
    assert forall|j: int| 0 <= j < c implies #[trigger] ear_cut(
        o,
        r,
        appended_triangle(t0, t2, j),
        min_x,
        min_y,
        shift,
    ) by {
        assert(appended_triangle(t0, t2, j) =~= appended_triangle(t0, t, j)) by {
            let b = t0.len() + 3 * j;
            assert(t2.subrange(0, t.len() as int)[b] == t[b]);
            assert(t2.subrange(0, t.len() as int)[b + 1] == t[b + 1]);
            assert(t2.subrange(0, t.len() as int)[b + 2] == t[b + 2]);
        }
        assert(ear_cut(o, r, appended_triangle(t0, t, j), min_x, min_y, shift));
    }
    assert(pass_result(o, r, t0, t2, c, m, qe, ze, min_x, min_y, shift));
}

} // verus!
