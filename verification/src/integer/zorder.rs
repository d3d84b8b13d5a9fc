//! Interlinking the nodes of a ring in z-order.
use vstd::prelude::*;

use crate::integer::geom::{z_order, z_order_spec};
use crate::integer::nodes::{
    is_ring, lemma_ring_basics, links_ok, node_links_in, z_ok, Node,
};

verus! {

broadcast use vstd::seq_lib::group_to_multiset_ensures;

/// Sorts the `(z, node)` pairs by `z`.
///
/// Calls std's `slice::sort_unstable_by_key` with the key `z`. Trusted: the
/// result holds the same pairs (as a multiset) in non-decreasing `z`, as that
/// function's documentation states of a sort; the order among pairs of equal
/// `z` is left unsaid, as the documentation leaves it.
#[verifier::external_body]
fn sort_by_z(order: &mut Vec<(i32, usize)>)
    ensures
        final(order)@.to_multiset() == old(order)@.to_multiset(),
        forall|i: int, j: int|
            0 <= i <= j < final(order)@.len() ==> final(order)@[i].0 <= final(order)@[j].0,
{
    order.sort_unstable_by_key(|&(z, _)| z);
}

/// The z value that `index_curve` gives a node: its cached value, or the
/// z-order of its cell when none was computed yet (`0`).
pub open spec fn z_value(n: Node, min_x: i32, min_y: i32, shift: u32) -> i32 {
    if n.z == 0 {
        z_order_spec(n.xy, min_x, min_y, shift)
    } else {
        n.z
    }
}

/// `index_curve` changed, on the nodes of ring `r`, only their z value and
/// z-order links.
pub open spec fn curve_effect(
    old: Seq<Node>,
    new: Seq<Node>,
    r: Seq<usize>,
    min_x: i32,
    min_y: i32,
    shift: u32,
) -> bool {
    &&& new.len() == old.len()
    &&& forall|i: usize|
        i < old.len() ==> (#[trigger] new[i as int]).prev == old[i as int].prev && new[i as int].next
            == old[i as int].next && new[i as int].index == old[i as int].index && new[i as int].xy
            == old[i as int].xy && new[i as int].steiner == old[i as int].steiner
    &&& forall|i: usize|
        i < old.len() && r.contains(i) ==> (#[trigger] new[i as int]).z == z_value(
            old[i as int],
            min_x,
            min_y,
            shift,
        )
    &&& forall|i: usize| i < old.len() && !r.contains(i) ==> #[trigger] new[i as int] == old[i as int]
}

/// Pairs listing the nodes of a ring (without repeats) keep doing so after
/// a permutation.
proof fn lemma_perm_nodes(s1: Seq<(i32, usize)>, s2: Seq<(i32, usize)>, r: Seq<usize>)
    requires
        s1.len() == r.len(),
        forall|k: int| 0 <= k < s1.len() ==> (#[trigger] s1[k]).1 == r[k],
        r.no_duplicates(),
        s2.to_multiset() == s1.to_multiset(),
    ensures
        s2.len() == r.len(),
        forall|j: int| 0 <= j < s2.len() ==> r.contains(#[trigger] s2[j].1),
        forall|x: usize| r.contains(x) ==> s2.map_values(|e: (i32, usize)| e.1).contains(x),
        forall|i: int, j: int| 0 <= i < s2.len() && 0 <= j < s2.len() && i != j ==> s2[i].1 != s2[j].1,
{
    assert(s1.no_duplicates()) by {
        assert forall|i: int, j: int| 0 <= i < s1.len() && 0 <= j < s1.len() && i != j implies s1[i]
            != s1[j] by {
            assert(s1[i].1 == r[i]);
            assert(s1[j].1 == r[j]);
        }
    }
    s1.lemma_multiset_has_no_duplicates();
    assert forall|x: (i32, usize)| s2.to_multiset().contains(x) implies s2.to_multiset().count(x)
        == 1 by {
        assert(s1.to_multiset().contains(x));
    }
    s2.lemma_multiset_has_no_duplicates_conv();
    assert(s2.len() == s2.to_multiset().len());
    assert(s1.len() == s1.to_multiset().len());
    assert forall|j: int| 0 <= j < s2.len() implies r.contains(#[trigger] s2[j].1) by {
        assert(s2.contains(s2[j]));
        assert(s2.to_multiset().count(s2[j]) > 0);
        assert(s1.to_multiset().count(s2[j]) > 0);
        assert(s1.contains(s2[j]));
        let k = choose|k: int| 0 <= k < s1.len() && s1[k] == s2[j];
        assert(s1[k].1 == r[k]);
    }
    assert forall|x: usize| r.contains(x) implies s2.map_values(|e: (i32, usize)| e.1).contains(x) by {
        let k = choose|k: int| 0 <= k < r.len() && r[k] == x;
        assert(s1[k].1 == r[k]);
        assert(s1.contains(s1[k]));
        assert(s1.to_multiset().count(s1[k]) > 0);
        assert(s2.to_multiset().count(s1[k]) > 0);
        assert(s2.contains(s1[k]));
        let j = choose|j: int| 0 <= j < s2.len() && s2[j] == s1[k];
        assert(s2[j].1 == r[k]);
        assert(s2.map_values(|e: (i32, usize)| e.1)[j] == x);
    }
    assert forall|i: int, j: int| 0 <= i < s2.len() && 0 <= j < s2.len() && i != j implies s2[i].1
        != s2[j].1 by {
        assert(s2.contains(s2[i]));
        assert(s2.contains(s2[j]));
        assert(s2.to_multiset().count(s2[i]) > 0);
        assert(s2.to_multiset().count(s2[j]) > 0);
        assert(s1.contains(s2[i]));
        assert(s1.contains(s2[j]));
        let a = choose|a: int| 0 <= a < s1.len() && s1[a] == s2[i];
        let b = choose|b: int| 0 <= b < s1.len() && s1[b] == s2[j];
        assert(s1[a].1 == r[a]);
        assert(s1[b].1 == r[b]);
    }
}

/// interlink polygon nodes in z-order
///
/// Returns the z-order list: the nodes of ring `r` sorted by z value.
#[verifier::spinoff_prover]
pub fn index_curve(
    nodes: &mut Vec<Node>,
    start_i: usize,
    min_x: i32,
    min_y: i32,
    shift: u32,
    order: &mut Vec<(i32, usize)>,
    Ghost(r): Ghost<Seq<usize>>,
) -> (zl: Ghost<Seq<usize>>)
    requires
        links_ok(old(nodes)@),
        is_ring(old(nodes)@, r),
        r[0] == start_i,
        shift < 64,
    ensures
        links_ok(final(nodes)@),
        curve_effect(old(nodes)@, final(nodes)@, r, min_x, min_y, shift),
        z_ok(final(nodes)@, zl@),
        zl@.len() == r.len(),
        forall|x: usize| zl@.contains(x) <==> r.contains(x),
        forall|i: int, j: int|
            0 <= i <= j < zl@.len() ==> final(nodes)@[zl@[i] as int].z <= final(nodes)@[zl@[j] as int].z,
        final(order)@.len() == r.len(),
        forall|j: int|
            0 <= j < r.len() ==> #[trigger] final(order)@[j] == (
                final(nodes)@[zl@[j] as int].z,
                zl@[j],
            ),
{
    let ghost old_nodes = nodes@;
    let ghost n = r.len() as int;
    order.clear();
    let mut p_i = start_i;
    let ghost mut k: int = 0;
    loop
        invariant_except_break
            p_i == r[k],
            order@.len() == k,
            forall|j: int| 0 <= j < k ==> #[trigger] order@[j] == (nodes@[r[j] as int].z, r[j]),
            forall|i: usize|
                i < old_nodes.len() ==> (#[trigger] nodes@[i as int]) == (Node {
                    z: if exists|j: int| 0 <= j < k && r[j] == i {
                        z_value(old_nodes[i as int], min_x, min_y, shift)
                    } else {
                        old_nodes[i as int].z
                    },
                    ..old_nodes[i as int]
                }),
        invariant
            is_ring(old_nodes, r),
            n == r.len(),
            r[0] == start_i,
            shift < 64,
            0 <= k < n,
            nodes@.len() == old_nodes.len(),
        ensures
            k == n - 1,
            order@.len() == n,
            forall|j: int| 0 <= j < n ==> #[trigger] order@[j] == (nodes@[r[j] as int].z, r[j]),
            forall|i: usize|
                i < old_nodes.len() ==> (#[trigger] nodes@[i as int]) == (Node {
                    z: if exists|j: int| 0 <= j < k + 1 && r[j] == i {
                        z_value(old_nodes[i as int], min_x, min_y, shift)
                    } else {
                        old_nodes[i as int].z
                    },
                    ..old_nodes[i as int]
                }),
        decreases n - k,
    {
        proof {
            lemma_ring_basics(old_nodes, r, k);
        }
        if nodes[p_i].z == 0 {
            let z = z_order(nodes[p_i].xy, min_x, min_y, shift);
            nodes[p_i].z = z;
        }
        let ghost m = nodes@;
        assert forall|i: usize| i < old_nodes.len() implies (#[trigger] nodes@[i as int]) == (Node {
            z: if exists|j: int| 0 <= j < k + 1 && r[j] == i {
                z_value(old_nodes[i as int], min_x, min_y, shift)
            } else {
                old_nodes[i as int].z
            },
            ..old_nodes[i as int]
        }) by {
            if i == p_i {
                assert(r[k] == i);
                if exists|j: int| 0 <= j < k && r[j] == i {
                    let j = choose|j: int| 0 <= j < k && r[j] == i;
                    assert(r[j] == r[k]);
                }
            } else {
                if exists|j: int| 0 <= j < k + 1 && r[j] == i {
                    let j = choose|j: int| 0 <= j < k + 1 && r[j] == i;
                    assert(j != k);
                }
            }
        }
        let z = nodes[p_i].z;
        order.push((z, p_i));
        assert forall|j: int| 0 <= j < k + 1 implies #[trigger] order@[j] == (nodes@[r[j] as int].z, r[j]) by {
            if j < k {
                assert(r[j] != r[k]);
                lemma_ring_basics(old_nodes, r, j);
            }
        }
        p_i = nodes[p_i].next;
        if p_i == start_i {
            proof {
                if k + 1 < n {
                    assert(r[k + 1] != r[0]);
                }
            }
            break;
        }
        proof {
            k = k + 1;
        }
    }
    let ghost s1 = order@;
    let ghost m1 = nodes@;
    assert(k == n - 1);
    assert forall|i: usize| i < old_nodes.len() && r.contains(i) implies (#[trigger] m1[i as int]).z
        == z_value(old_nodes[i as int], min_x, min_y, shift) by {
        let j = choose|j: int| 0 <= j < r.len() && r[j] == i;
        assert(exists|jj: int| 0 <= jj < k + 1 && r[jj] == i);
    }
    assert forall|i: usize| i < old_nodes.len() && !r.contains(i) implies #[trigger] m1[i as int]
        == old_nodes[i as int] by {
        if exists|jj: int| 0 <= jj < k + 1 && r[jj] == i {
            let jj = choose|jj: int| 0 <= jj < k + 1 && r[jj] == i;
            assert(r.contains(r[jj]));
        }
        assert(m1[i as int] == (Node { z: old_nodes[i as int].z, ..old_nodes[i as int] }));
    }
    sort_by_z(order);
    let ghost s2 = order@;
    proof {
        assert forall|j: int| 0 <= j < s1.len() implies (#[trigger] s1[j]).1 == r[j] by {}
        lemma_perm_nodes(s1, s2, r);
        assert forall|j: int| 0 <= j < s2.len() implies (#[trigger] s2[j]).0 == m1[s2[j].1 as int].z by {
            assert(s2.contains(s2[j]));
            assert(s2.to_multiset().count(s2[j]) > 0);
            assert(s1.contains(s2[j]));
            let a = choose|a: int| 0 <= a < s1.len() && s1[a] == s2[j];
        }
    }
    let len = order.len();
    let mut idx: usize = 0;
    while idx < len
        invariant
            len == order@.len(),
            is_ring(old_nodes, r),
            n == r.len(),
            order@ == s2,
            s2.len() == n,
            0 <= idx <= len,
            nodes@.len() == m1.len(),
            m1.len() == old_nodes.len(),
            forall|j: int| 0 <= j < s2.len() ==> r.contains(#[trigger] s2[j].1),
            forall|i: int, j: int| 0 <= i < s2.len() && 0 <= j < s2.len() && i != j ==> s2[i].1 != s2[j].1,
            forall|j: int| 0 <= j < s2.len() ==> (#[trigger] s2[j].1) < m1.len(),
            forall|i: usize|
                i < m1.len() ==> (#[trigger] nodes@[i as int]).prev == m1[i as int].prev
                    && nodes@[i as int].next == m1[i as int].next && nodes@[i as int].index
                    == m1[i as int].index && nodes@[i as int].xy == m1[i as int].xy
                    && nodes@[i as int].steiner == m1[i as int].steiner && nodes@[i as int].z
                    == m1[i as int].z,
            forall|i: usize|
                i < m1.len() && !(exists|t: int| 0 <= t < idx && s2[t].1 == i) ==> #[trigger] nodes@[i
                    as int] == m1[i as int],
            forall|t: int|
                0 <= t < idx ==> (#[trigger] nodes@[s2[t].1 as int]).prev_z == (if t > 0 {
                    Some(s2[t - 1].1)
                } else {
                    None
                }) && nodes@[s2[t].1 as int].next_z == (if t + 1 < s2.len() {
                    Some(s2[t + 1].1)
                } else {
                    None
                }),
        decreases len - idx,
    {
        proof {
            assert(r.contains(s2[idx as int].1));
            let j = choose|j: int| 0 <= j < r.len() && r[j] == s2[idx as int].1;
            lemma_ring_basics(old_nodes, r, j);
            if idx > 0 {
                assert(r.contains(s2[idx - 1].1));
                let j2 = choose|j2: int| 0 <= j2 < r.len() && r[j2] == s2[idx - 1].1;
                lemma_ring_basics(old_nodes, r, j2);
            }
            if idx + 1 < len {
                assert(r.contains(s2[idx + 1].1));
                let j3 = choose|j3: int| 0 <= j3 < r.len() && r[j3] == s2[idx + 1].1;
                lemma_ring_basics(old_nodes, r, j3);
            }
        }
        let prev_z_i = if idx > 0 {
            Some(order[idx - 1].1)
        } else {
            None
        };
        let next_z_i = if idx + 1 < len {
            Some(order[idx + 1].1)
        } else {
            None
        };
        let p = order[idx].1;
        let ghost before = nodes@;
        nodes[p].prev_z = prev_z_i;
        nodes[p].next_z = next_z_i;
        proof {
            assert forall|t: int| 0 <= t < idx + 1 implies (#[trigger] nodes@[s2[t].1 as int]).prev_z
                == (if t > 0 {
                Some(s2[t - 1].1)
            } else {
                None
            }) && nodes@[s2[t].1 as int].next_z == (if t + 1 < s2.len() {
                Some(s2[t + 1].1)
            } else {
                None
            }) by {
                if t < idx {
                    assert(s2[t].1 != s2[idx as int].1);
                }
            }
            assert forall|i: usize|
                i < m1.len() && !(exists|t: int| 0 <= t < idx + 1 && s2[t].1 == i) implies #[trigger] nodes@[i
                as int] == m1[i as int] by {
                assert(i != p);
                assert(!(exists|t: int| 0 <= t < idx && s2[t].1 == i));
            }
        }
        idx = idx + 1;
    }
    let ghost zl = s2.map_values(|e: (i32, usize)| e.1);
    proof {
        assert forall|x: usize| zl.contains(x) <==> r.contains(x) by {
            if zl.contains(x) {
                let j = choose|j: int| 0 <= j < zl.len() && zl[j] == x;
                assert(zl[j] == s2[j].1);
            }
            if r.contains(x) {
                assert(s2.map_values(|e: (i32, usize)| e.1).contains(x));
            }
        }
        assert forall|i: usize| i < old_nodes.len() && r.contains(i) implies (#[trigger] nodes@[i as int]).z
            == z_value(old_nodes[i as int], min_x, min_y, shift) by {
            assert(m1[i as int].z == z_value(old_nodes[i as int], min_x, min_y, shift));
        }
        assert forall|i: usize| i < old_nodes.len() && !r.contains(i) implies #[trigger] nodes@[i as int]
            == old_nodes[i as int] by {
            if exists|t: int| 0 <= t < idx && s2[t].1 == i {
                let t = choose|t: int| 0 <= t < idx && s2[t].1 == i;
                assert(r.contains(s2[t].1));
            }
            assert(m1[i as int] == old_nodes[i as int]);
        }
        assert forall|i: int| 0 <= i < nodes@.len() implies node_links_in(
            #[trigger] nodes@[i],
            nodes@.len() as int,
        ) by {
            let iu = i as usize;
            assert(node_links_in(old_nodes[i], old_nodes.len() as int));
            assert(nodes@[iu as int].prev == m1[iu as int].prev);
            assert(m1[iu as int] == (Node { z: m1[iu as int].z, ..old_nodes[iu as int] }));
            if exists|t: int| 0 <= t < idx && s2[t].1 == iu {
                let t = choose|t: int| 0 <= t < idx && s2[t].1 == iu;
                if t > 0 {
                    assert(s2[t - 1].1 < m1.len());
                }
                if t + 1 < s2.len() {
                    assert(s2[t + 1].1 < m1.len());
                }
            } else {
                assert(nodes@[iu as int] == m1[iu as int]);
            }
        }
        assert(zl.no_duplicates());
        assert forall|t: int| 0 <= t < zl.len() implies (#[trigger] zl[t]) < nodes@.len() && nodes@[zl[t] as int].prev_z
            == (if t == 0 {
            None
        } else {
            Some(zl[t - 1])
        }) && nodes@[zl[t] as int].next_z == (if t + 1 == zl.len() {
            None
        } else {
            Some(zl[t + 1])
        }) by {
            assert(zl[t] == s2[t].1);
        }
        assert forall|i: int, j: int| 0 <= i <= j < zl.len() implies nodes@[zl[i] as int].z
            <= nodes@[zl[j] as int].z by {
            assert(s2[i].0 <= s2[j].0);
            assert(zl[i] == s2[i].1);
            assert(zl[j] == s2[j].1);
        }
    }
    Ghost(zl)
}

} // verus!
