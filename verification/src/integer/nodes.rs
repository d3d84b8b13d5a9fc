//! The node arena: vertices linked into circular rings (by `prev`/`next`)
//! and, while z-order hashing is on, into a sorted z-order list.
//!
//! Nodes are only ever appended, so an index into the arena keeps naming
//! the same node. A ring is described by the ghost sequence of its nodes in
//! `next` order.
use vstd::prelude::*;

use crate::integer::geom::Point;

verus! {

#[derive(Clone, Copy)]
pub struct Node {
    /// vertex index in coordinates array
    pub index: u32,
    /// whether the node stands for a lone hole point that filtering must keep
    pub steiner: bool,
    /// z-order curve value
    pub z: i32,
    /// vertex coordinates
    pub xy: Point,
    /// previous vertex node in a polygon ring
    pub prev: usize,
    /// next vertex node in a polygon ring
    pub next: usize,
    /// previous node in z-order
    pub prev_z: Option<usize>,
    /// next node in z-order
    pub next_z: Option<usize>,
}

pub struct LinkInfo {
    pub prev: usize,
    pub next: usize,
    pub prev_z: Option<usize>,
    pub next_z: Option<usize>,
}

impl Node {
    pub fn new(i: u32, xy: Point) -> (r: Node)
        ensures
            r.index == i,
            r.xy == xy,
            !r.steiner,
            r.z == 0,
            r.prev == 0,
            r.next == 0,
            r.prev_z is None,
            r.next_z is None,
    {
        Node { index: i, steiner: false, z: 0, xy, prev: 0, next: 0, prev_z: None, next_z: None }
    }

    pub fn link_info(&self) -> (r: LinkInfo)
        ensures
            r.prev == self.prev,
            r.next == self.next,
            r.prev_z == self.prev_z,
            r.next_z == self.next_z,
    {
        LinkInfo { prev: self.prev, next: self.next, prev_z: self.prev_z, next_z: self.next_z }
    }
}

/// `o` is a link to node `i`.
pub open spec fn names(o: Option<usize>, i: int) -> bool {
    o matches Some(j) && j == i
}

pub open spec fn opt_in(o: Option<usize>, len: int) -> bool {
    match o {
        Some(j) => j < len,
        None => true,
    }
}

/// Every link of `n` names a node of an arena of `len` nodes.
pub open spec fn node_links_in(n: Node, len: int) -> bool {
    &&& n.prev < len
    &&& n.next < len
    &&& opt_in(n.prev_z, len)
    &&& opt_in(n.next_z, len)
}

/// All links stay inside the arena.
pub open spec fn links_ok(nodes: Seq<Node>) -> bool {
    forall|i: int| 0 <= i < nodes.len() ==> node_links_in(#[trigger] nodes[i], nodes.len() as int)
}

/// Every node stands for one of the first `dlen` input vertices.
pub open spec fn indices_below(nodes: Seq<Node>, dlen: int) -> bool {
    forall|i: int| 0 <= i < nodes.len() ==> (#[trigger] nodes[i]).index < dlen
}

/// The arena invariant.
pub open spec fn arena_ok(nodes: Seq<Node>, dlen: int) -> bool {
    links_ok(nodes) && indices_below(nodes, dlen)
}

pub open spec fn succ(n: int, k: int) -> int {
    if k + 1 < n {
        k + 1
    } else {
        0
    }
}

pub open spec fn pred(n: int, k: int) -> int {
    if k > 0 {
        k - 1
    } else {
        n - 1
    }
}

/// `r` lists, in `next` order, the distinct nodes of one circular ring.
pub open spec fn is_ring(nodes: Seq<Node>, r: Seq<usize>) -> bool {
    &&& r.len() >= 1
    &&& r.no_duplicates()
    &&& forall|k: int| 0 <= k < r.len() ==> (#[trigger] r[k]) < nodes.len()
    &&& forall|k: int|
        0 <= k < r.len() ==> (#[trigger] nodes[r[k] as int]).next == r[succ(r.len() as int, k)]
    &&& forall|k: int|
        0 <= k < r.len() ==> (#[trigger] nodes[r[k] as int]).prev == r[pred(r.len() as int, k)]
}

/// The ring `r` read from position `k` on.
pub open spec fn rotate(r: Seq<usize>, k: int) -> Seq<usize> {
    r.subrange(k, r.len() as int) + r.subrange(0, k)
}

/// `old` and `new` agree on the ring links of the nodes of `r`.
pub open spec fn same_links_on(old: Seq<Node>, new: Seq<Node>, r: Seq<usize>) -> bool {
    &&& new.len() >= old.len()
    &&& forall|k: int|
        0 <= k < r.len() ==> (#[trigger] new[r[k] as int]).prev == old[r[k] as int].prev
            && new[r[k] as int].next == old[r[k] as int].next
}

pub proof fn lemma_ring_frame(old: Seq<Node>, new: Seq<Node>, r: Seq<usize>)
    requires
        is_ring(old, r),
        same_links_on(old, new, r),
    ensures
        is_ring(new, r),
{
    assert forall|k: int| 0 <= k < r.len() implies (#[trigger] new[r[k] as int]).next == r[succ(
        r.len() as int,
        k,
    )] && new[r[k] as int].prev == r[pred(r.len() as int, k)] by {
        assert(old[r[k] as int].next == r[succ(r.len() as int, k)]);
        assert(old[r[k] as int].prev == r[pred(r.len() as int, k)]);
    }
}

pub proof fn lemma_ring_basics(nodes: Seq<Node>, r: Seq<usize>, k: int)
    requires
        is_ring(nodes, r),
        0 <= k < r.len(),
    ensures
        r[k] < nodes.len(),
        nodes[r[k] as int].next == r[succ(r.len() as int, k)],
        nodes[r[k] as int].prev == r[pred(r.len() as int, k)],
{
    assert(r[k] < nodes.len());
    assert(nodes[r[k] as int].next == r[succ(r.len() as int, k)]);
}

/// Reading a ring from another of its nodes gives a ring again.
#[verifier::spinoff_prover]
pub proof fn lemma_rotate(nodes: Seq<Node>, r: Seq<usize>, k: int)
    requires
        is_ring(nodes, r),
        0 <= k < r.len(),
    ensures
        is_ring(nodes, rotate(r, k)),
        rotate(r, k).len() == r.len(),
        rotate(r, k)[0] == r[k],
        forall|j: int|
            0 <= j < r.len() ==> #[trigger] rotate(r, k)[j] == r[if k + j < r.len() {
                k + j
            } else {
                k + j - r.len()
            }],
        rotate(r, k).to_set() == r.to_set(),
{
    let n = r.len() as int;
    let s = rotate(r, k);
    assert forall|j: int| 0 <= j < n implies #[trigger] s[j] == r[if k + j < n {
        k + j
    } else {
        k + j - n
    }] by {
        if j < n - k {
        } else {
        }
    }
    assert(s.no_duplicates()) by {
        assert forall|i: int, j: int| 0 <= i < n && 0 <= j < n && i != j implies s[i] != s[j] by {
            let ii = if k + i < n {
                k + i
            } else {
                k + i - n
            };
            let jj = if k + j < n {
                k + j
            } else {
                k + j - n
            };
            assert(s[i] == r[ii]);
            assert(s[j] == r[jj]);
        }
    }
    assert forall|j: int| 0 <= j < n implies (#[trigger] s[j]) < nodes.len() && nodes[s[j] as int].next
        == s[succ(n, j)] && nodes[s[j] as int].prev == s[pred(n, j)] by {
        let jj = if k + j < n {
            k + j
        } else {
            k + j - n
        };
        assert(s[j] == r[jj]);
        lemma_ring_basics(nodes, r, jj);
        let sj = succ(n, j);
        let pj = pred(n, j);
        assert(s[sj] == r[if k + sj < n {
            k + sj
        } else {
            k + sj - n
        }]);
        assert(s[pj] == r[if k + pj < n {
            k + pj
        } else {
            k + pj - n
        }]);
    }
    assert(s.to_set() =~= r.to_set()) by {
        assert forall|x: usize| s.to_set().contains(x) implies r.to_set().contains(x) by {
            let j = choose|j: int| 0 <= j < n && s[j] == x;
            let jj = if k + j < n {
                k + j
            } else {
                k + j - n
            };
            assert(s[j] == r[jj]);
        }
        assert forall|x: usize| r.to_set().contains(x) implies s.to_set().contains(x) by {
            let i = choose|i: int| 0 <= i < n && r[i] == x;
            let j = if i >= k {
                i - k
            } else {
                i + n - k
            };
            assert(s[j] == r[i]);
        }
    }
}


/// The arena after unlinking the node whose links were `pl`.
pub open spec fn remove_effect(old: Seq<Node>, new: Seq<Node>, pl: LinkInfo) -> bool {
    &&& new.len() == old.len()
    &&& forall|i: int|
        0 <= i < new.len() ==> #[trigger] new[i] == (Node {
            prev: if i == pl.next {
                pl.prev
            } else {
                old[i].prev
            },
            next: if i == pl.prev {
                pl.next
            } else {
                old[i].next
            },
            prev_z: if names(pl.next_z, i) {
                pl.prev_z
            } else {
                old[i].prev_z
            },
            next_z: if names(pl.prev_z, i) {
                pl.next_z
            } else {
                old[i].next_z
            },
            ..old[i]
        })
}

/// Unlinks a node from its ring and from the z-order list.
pub fn remove_node(nodes: &mut Vec<Node>, pl: LinkInfo) -> (r: (usize, usize))
    requires
        pl.prev < old(nodes)@.len(),
        pl.next < old(nodes)@.len(),
        opt_in(pl.prev_z, old(nodes)@.len() as int),
        opt_in(pl.next_z, old(nodes)@.len() as int),
    ensures
        remove_effect(old(nodes)@, final(nodes)@, pl),
        r == (pl.prev, pl.next),
{
    let ghost s0 = nodes@;
    nodes[pl.prev].next = pl.next;
    let ghost s1 = nodes@;
    if let Some(prev_z) = pl.prev_z {
        nodes[prev_z].next_z = pl.next_z;
    }
    let ghost s2 = nodes@;
    nodes[pl.next].prev = pl.prev;
    let ghost s3 = nodes@;
    if let Some(next_z) = pl.next_z {
        nodes[next_z].prev_z = pl.prev_z;
    }
    assert forall|i: int| 0 <= i < nodes@.len() implies #[trigger] nodes@[i] == (Node {
        prev: if i == pl.next {
            pl.prev
        } else {
            s0[i].prev
        },
        next: if i == pl.prev {
            pl.next
        } else {
            s0[i].next
        },
        prev_z: if names(pl.next_z, i) {
            pl.prev_z
        } else {
            s0[i].prev_z
        },
        next_z: if names(pl.prev_z, i) {
            pl.next_z
        } else {
            s0[i].next_z
        },
        ..s0[i]
    }) by {
        assert(s1[i].next == if i == pl.prev { pl.next } else { s0[i].next });
        assert(s1[i].prev == s0[i].prev);
        assert(s2[i].next_z == if names(pl.prev_z, i) { pl.next_z } else { s0[i].next_z });
        assert(s3[i].prev == if i == pl.next { pl.prev } else { s0[i].prev });
    }
    (pl.prev, pl.next)
}

/// Removing the first node of a ring of two or more nodes leaves a ring of the rest.
pub proof fn lemma_ring_remove(old: Seq<Node>, new: Seq<Node>, r: Seq<usize>, pl: LinkInfo)
    requires
        is_ring(old, r),
        r.len() >= 2,
        pl.prev == old[r[0] as int].prev,
        pl.next == old[r[0] as int].next,
        remove_effect(old, new, pl),
    ensures
        is_ring(new, r.drop_first()),
{
    let n = r.len() as int;
    let s = r.drop_first();
    lemma_ring_basics(old, r, 0);
    assert(pl.prev == r[n - 1]);
    assert(pl.next == r[1]);
    assert forall|k: int| 0 <= k < n - 1 implies (#[trigger] s[k]) < new.len() && new[s[k] as int].next
        == s[succ(n - 1, k)] && new[s[k] as int].prev == s[pred(n - 1, k)] by {
        assert(s[k] == r[k + 1]);
        lemma_ring_basics(old, r, k + 1);
        assert(new[s[k] as int] == new[r[k + 1] as int]);
        if k + 1 == n - 1 {
        } else {
            assert(r[k + 1] != r[n - 1]);
        }
        if k == 0 {
        } else {
            assert(r[k + 1] != r[1]);
        }
    }
    assert(s.no_duplicates()) by {
        assert forall|i: int, j: int| 0 <= i < n - 1 && 0 <= j < n - 1 && i != j implies s[i]
            != s[j] by {
            assert(s[i] == r[i + 1]);
            assert(s[j] == r[j + 1]);
        }
    }
}

/// Removing the only node of a one-node ring leaves that ring as it was.
pub proof fn lemma_ring_remove_single(old: Seq<Node>, new: Seq<Node>, r: Seq<usize>, pl: LinkInfo)
    requires
        is_ring(old, r),
        r.len() == 1,
        pl.prev == old[r[0] as int].prev,
        pl.next == old[r[0] as int].next,
        remove_effect(old, new, pl),
    ensures
        is_ring(new, r),
{
    lemma_ring_basics(old, r, 0);
    assert(new[r[0] as int].next == r[0]);
}

/// The arena after `insert_node` appended the node `p` after `last`.
pub open spec fn insert_effect(
    old: Seq<Node>,
    new: Seq<Node>,
    i: u32,
    xy: Point,
    last: Option<usize>,
) -> bool {
    let p = old.len() as usize;
    &&& new.len() == old.len() + 1
    &&& new[p as int] == (match last {
        Some(l) => Node {
            index: i,
            steiner: false,
            z: 0,
            xy,
            prev: l,
            next: old[l as int].next,
            prev_z: None,
            next_z: None,
        },
        None => Node {
            index: i,
            steiner: false,
            z: 0,
            xy,
            prev: p,
            next: p,
            prev_z: None,
            next_z: None,
        },
    })
    &&& forall|j: int|
        0 <= j < old.len() ==> #[trigger] new[j] == (Node {
            next: if last == Some(j as usize) {
                p
            } else {
                old[j].next
            },
            prev: if last is Some && j == old[last->0 as int].next {
                p
            } else {
                old[j].prev
            },
            ..old[j]
        })
}

/// create a node and optionally link it with previous one (in a circular doubly linked list)
pub fn insert_node(nodes: &mut Vec<Node>, i: u32, xy: Point, last: Option<usize>) -> (p_i: usize)
    requires
        last matches Some(l) ==> l < old(nodes)@.len() && old(nodes)@[l as int].next < old(
            nodes,
        )@.len(),
    ensures
        p_i == old(nodes)@.len(),
        insert_effect(old(nodes)@, final(nodes)@, i, xy, last),
{
    let mut p = Node::new(i, xy);
    let p_i = nodes.len();
    match last {
        Some(last_i) => {
            let last_next_i = nodes[last_i].next;
            p.next = last_next_i;
            nodes[last_i].next = p_i;
            p.prev = last_i;
            nodes[last_next_i].prev = p_i;
        },
        None => {
            p.prev = p_i;
            p.next = p_i;
        },
    }
    nodes.push(p);
    p_i
}

/// Appending a node after the last node of a ring extends the ring by it.
pub proof fn lemma_ring_insert(
    old: Seq<Node>,
    new: Seq<Node>,
    r: Seq<usize>,
    i: u32,
    xy: Point,
)
    requires
        is_ring(old, r),
        insert_effect(old, new, i, xy, Some(r.last())),
        new.len() <= usize::MAX,
    ensures
        is_ring(new, r.push(old.len() as usize)),
{
    let n = r.len() as int;
    let p = old.len() as usize;
    let s = r.push(p);
    lemma_ring_basics(old, r, n - 1);
    assert(old[r[n - 1] as int].next == r[0]);
    assert forall|k: int| 0 <= k < n + 1 implies (#[trigger] s[k]) < new.len() && new[s[k] as int].next
        == s[succ(n + 1, k)] && new[s[k] as int].prev == s[pred(n + 1, k)] by {
        if k < n {
            lemma_ring_basics(old, r, k);
            assert(s[k] == r[k]);
            if k != n - 1 {
                assert(r[k] != r[n - 1]);
            }
            if k != 0 {
                assert(r[k] != r[0]);
            }
        }
    }
    assert(s.no_duplicates()) by {
        assert forall|a: int, b: int| 0 <= a < n + 1 && 0 <= b < n + 1 && a != b implies s[a]
            != s[b] by {
            if a < n {
                assert(s[a] == r[a]);
                lemma_ring_basics(old, r, a);
            } else {
                assert(s[a] == p);
            }
            if b < n {
                assert(s[b] == r[b]);
                lemma_ring_basics(old, r, b);
            } else {
                assert(s[b] == p);
            }
        }
    }
}

/// A one-node ring made by inserting with no predecessor.
pub proof fn lemma_ring_insert_first(old: Seq<Node>, new: Seq<Node>, i: u32, xy: Point)
    requires
        insert_effect(old, new, i, xy, None),
    ensures
        is_ring(new, seq![old.len() as usize]),
{
    let s = seq![old.len() as usize];
    assert(s[0] == old.len() as usize);
}


/// The arena after `split_polygon(a, b)` linked `a` to `b` and appended the
/// copies `a2 = old.len()` and `b2 = old.len() + 1`.
pub open spec fn split_effect(old: Seq<Node>, new: Seq<Node>, a: usize, b: usize) -> bool {
    let a2 = old.len() as usize;
    let b2 = (old.len() + 1) as usize;
    let an = old[a as int].next;
    let bp = old[b as int].prev;
    &&& new.len() == old.len() + 2
    &&& new[a2 as int] == (Node {
        index: old[a as int].index,
        steiner: false,
        z: 0,
        xy: old[a as int].xy,
        prev: b2,
        next: an,
        prev_z: None,
        next_z: None,
    })
    &&& new[b2 as int] == (Node {
        index: old[b as int].index,
        steiner: false,
        z: 0,
        xy: old[b as int].xy,
        prev: bp,
        next: a2,
        prev_z: None,
        next_z: None,
    })
    &&& forall|j: int|
        0 <= j < old.len() ==> #[trigger] new[j] == (Node {
            next: if j == a {
                b
            } else if j == bp {
                b2
            } else {
                old[j].next
            },
            prev: if j == b {
                a
            } else if j == an {
                a2
            } else {
                old[j].prev
            },
            ..old[j]
        })
}

/// link two polygon vertices with a bridge; if the vertices belong to the same ring, it splits polygon into two;
/// if one belongs to the outer ring and another to a hole, it merges it into a single ring
pub fn split_polygon(nodes: &mut Vec<Node>, a_i: usize, b_i: usize) -> (b2_i: usize)
    requires
        a_i < old(nodes)@.len(),
        b_i < old(nodes)@.len(),
        a_i != b_i,
        old(nodes)@[a_i as int].next < old(nodes)@.len(),
        old(nodes)@[b_i as int].prev < old(nodes)@.len(),
        old(nodes)@[a_i as int].next != b_i,
        old(nodes)@[b_i as int].prev != a_i,
    ensures
        b2_i == old(nodes)@.len() + 1,
        split_effect(old(nodes)@, final(nodes)@, a_i, b_i),
{
    let ghost s0 = nodes@;
    let a2_i = nodes.len();
    let a = nodes[a_i];
    let an_i = a.next;
    let b = nodes[b_i];
    let bp_i = b.prev;
    let mut a2 = Node::new(a.index, a.xy);
    a2.next = an_i;
    nodes.push(a2);
    let b2_i = nodes.len();
    let mut b2 = Node::new(b.index, b.xy);
    b2.next = a2_i;
    b2.prev = bp_i;
    nodes.push(b2);
    nodes[a2_i].prev = b2_i;
    let ghost s1 = nodes@;
    nodes[a_i].next = b_i;
    let ghost s2 = nodes@;
    nodes[b_i].prev = a_i;
    let ghost s3 = nodes@;
    nodes[an_i].prev = a2_i;
    let ghost s4 = nodes@;
    nodes[bp_i].next = b2_i;
    assert forall|j: int| 0 <= j < s0.len() implies #[trigger] nodes@[j] == (Node {
        next: if j == a_i {
            b_i
        } else if j == bp_i {
            b2_i
        } else {
            s0[j].next
        },
        prev: if j == b_i {
            a_i
        } else if j == an_i {
            a2_i
        } else {
            s0[j].prev
        },
        ..s0[j]
    }) by {
        assert(s1[j] == s0[j]);
        assert(s2[j].prev == s0[j].prev);
        assert(s3[j].next == s2[j].next);
        assert(s4[j].next == s3[j].next);
    }
    b2_i
}

/// Splitting a ring along the diagonal from `r[0]` to `r[j]` gives two rings.
#[verifier::spinoff_prover]
pub proof fn lemma_ring_split(old: Seq<Node>, new: Seq<Node>, r: Seq<usize>, j: int)
    requires
        is_ring(old, r),
        2 <= j <= r.len() - 2,
        split_effect(old, new, r[0], r[j]),
        new.len() <= usize::MAX,
    ensures
        is_ring(new, seq![r[0]] + r.subrange(j, r.len() as int)),
        is_ring(
            new,
            seq![old.len() as usize] + r.subrange(1, j) + seq![(old.len() + 1) as usize],
        ),
{
    let n = r.len() as int;
    let a = r[0];
    let b = r[j];
    let a2 = old.len() as usize;
    let b2 = (old.len() + 1) as usize;
    lemma_ring_basics(old, r, 0);
    lemma_ring_basics(old, r, j);
    let an = old[a as int].next;
    let bp = old[b as int].prev;
    assert(an == r[1]);
    assert(bp == r[j - 1]);
    let r1 = seq![a] + r.subrange(j, n);
    let r2 = seq![a2] + r.subrange(1, j) + seq![b2];
    let n1 = n - j + 1;
    let n2 = j + 1;
    assert forall|k: int| 0 <= k < n1 implies #[trigger] r1[k] == (if k == 0 {
        a
    } else {
        r[j + k - 1]
    }) by {}
    assert forall|k: int| 0 <= k < n2 implies #[trigger] r2[k] == (if k == 0 {
        a2
    } else if k == j {
        b2
    } else {
        r[k]
    }) by {}
    assert forall|k: int| 0 <= k < n1 implies (#[trigger] r1[k]) < new.len() && new[r1[k] as int].next
        == r1[succ(n1, k)] && new[r1[k] as int].prev == r1[pred(n1, k)] by {
        if k == 0 {
            lemma_ring_basics(old, r, n - 1);
            assert(r1[n1 - 1] == r[n - 1]);
            assert(r1[1] == b);
        } else {
            let i = j + k - 1;
            lemma_ring_basics(old, r, i);
            assert(r1[k] == r[i]);
            assert(r[i] != r[j - 1]);
            assert(r[i] != r[0]);
            assert(r[i] != r[1]);
            if k + 1 < n1 {
                assert(r1[k + 1] == r[i + 1]);
            }
            if k >= 2 {
                assert(r1[k - 1] == r[i - 1]);
            }
        }
    }
    assert(r1.no_duplicates()) by {
        assert forall|x: int, y: int| 0 <= x < n1 && 0 <= y < n1 && x != y implies r1[x]
            != r1[y] by {
            assert(r1[x] == if x == 0 {
                r[0]
            } else {
                r[j + x - 1]
            });
            assert(r1[y] == if y == 0 {
                r[0]
            } else {
                r[j + y - 1]
            });
        }
    }
    assert forall|k: int| 0 <= k < n2 implies (#[trigger] r2[k]) < new.len() && new[r2[k] as int].next
        == r2[succ(n2, k)] && new[r2[k] as int].prev == r2[pred(n2, k)] by {
        if k == 0 {
            assert(r2[1] == r[1]);
            assert(r2[n2 - 1] == b2);
        } else if k == j {
            assert(r2[j - 1] == r[j - 1]);
        } else {
            lemma_ring_basics(old, r, k);
            assert(r2[k] == r[k]);
            assert(r[k] != r[0]);
            assert(r[k] != r[j]);
            if k + 1 < j {
                assert(r2[k + 1] == r[k + 1]);
                assert(r[k] != r[j - 1]);
            }
            if k >= 2 {
                assert(r2[k - 1] == r[k - 1]);
                assert(r[k] != r[1]);
            }
        }
    }
    assert(r2.no_duplicates()) by {
        assert forall|x: int, y: int| 0 <= x < n2 && 0 <= y < n2 && x != y implies r2[x]
            != r2[y] by {
            if x != 0 && x != j {
                lemma_ring_basics(old, r, x);
            }
            if y != 0 && y != j {
                lemma_ring_basics(old, r, y);
            }
        }
    }
}

/// Position `k` of `merged_ring(outer, hole, a2)`.
pub open spec fn merged_at(outer: Seq<usize>, hole: Seq<usize>, a2: usize, k: int) -> usize {
    let m = hole.len() as int;
    if k == 0 {
        outer[0]
    } else if k <= m {
        hole[k - 1]
    } else if k == m + 1 {
        (a2 + 1) as usize
    } else if k == m + 2 {
        a2
    } else {
        outer[k - m - 2]
    }
}

pub proof fn lemma_merged_table(outer: Seq<usize>, hole: Seq<usize>, a2: usize)
    requires
        outer.len() >= 1,
    ensures
        merged_ring(outer, hole, a2).len() == outer.len() + hole.len() + 2,
        forall|k: int|
            0 <= k < outer.len() + hole.len() + 2 ==> #[trigger] merged_ring(outer, hole, a2)[k]
                == merged_at(outer, hole, a2, k),
{
}

/// The hypotheses of `lemma_ring_merge`.
pub open spec fn merge_pre(old: Seq<Node>, new: Seq<Node>, outer: Seq<usize>, hole: Seq<usize>) -> bool {
    &&& is_ring(old, outer)
    &&& is_ring(old, hole)
    &&& forall|i: int, k: int|
        0 <= i < outer.len() && 0 <= k < hole.len() ==> outer[i] != hole[k]
    &&& split_effect(old, new, outer[0], hole[0])
    &&& new.len() <= usize::MAX
}

#[verifier::spinoff_prover]
proof fn lemma_merge_link(old: Seq<Node>, new: Seq<Node>, outer: Seq<usize>, hole: Seq<usize>, k: int)
    requires
        merge_pre(old, new, outer, hole),
        0 <= k < outer.len() + hole.len() + 2,
    ensures
        ({
            let a2 = old.len() as usize;
            let len = (outer.len() + hole.len() + 2) as int;
            let x = merged_at(outer, hole, a2, k);
            &&& x < new.len()
            &&& new[x as int].next == merged_at(outer, hole, a2, succ(len, k))
            &&& new[x as int].prev == merged_at(outer, hole, a2, pred(len, k))
        }),
{
    let n = outer.len() as int;
    let m = hole.len() as int;
    let a = outer[0];
    let b = hole[0];
    let a2 = old.len() as usize;
    let b2 = (old.len() + 1) as usize;
    lemma_ring_basics(old, outer, 0);
    lemma_ring_basics(old, hole, 0);
    lemma_ring_basics(old, hole, m - 1);
    let an = old[a as int].next;
    let bp = old[b as int].prev;
    assert(an == outer[succ(n, 0)]);
    assert(bp == hole[m - 1]);
    let len = n + m + 2;
    if k == 0 {
        assert(a != bp);
        if n > 1 {
            lemma_ring_basics(old, outer, n - 1);
            assert(outer[1] != outer[0]);
        }
    } else if k <= m {
        let i = k - 1;
        lemma_ring_basics(old, hole, i);
        assert(hole[i] != a);
        if n > 1 {
            assert(hole[i] != outer[1]);
        }
        if k != m {
            assert(hole[i] != hole[m - 1]);
        }
        if k != 1 {
            assert(hole[i] != hole[0]);
        }
    } else if k == m + 1 {
    } else if k == m + 2 {
    } else {
        let i = k - m - 2;
        lemma_ring_basics(old, outer, i);
        assert(outer[i] != outer[0]);
        assert(outer[i] != hole[0]);
        assert(outer[i] != hole[m - 1]);
        if i != 1 {
            assert(outer[i] != outer[1]);
        }
    }
}

/// Bridging from `R[0]` of ring `R` to `H[0]` of a disjoint ring `H` merges
/// both into one ring.
#[verifier::spinoff_prover]
#[verifier::rlimit(50)]
pub proof fn lemma_ring_merge(
    old: Seq<Node>,
    new: Seq<Node>,
    outer: Seq<usize>,
    hole: Seq<usize>,
)
    requires
        merge_pre(old, new, outer, hole),
    ensures
        is_ring(new, merged_ring(outer, hole, old.len() as usize)),
{
    let n = outer.len() as int;
    let m = hole.len() as int;
    let a2 = old.len() as usize;
    let mr = merged_ring(outer, hole, a2);
    let len = n + m + 2;
    lemma_merged_table(outer, hole, a2);
    assert forall|k: int| 0 <= k < len implies (#[trigger] mr[k]) < new.len() && new[mr[k] as int].next
        == mr[succ(len, k)] && new[mr[k] as int].prev == mr[pred(len, k)] by {
        lemma_merge_link(old, new, outer, hole, k);
    }
    assert(mr.no_duplicates()) by {
        assert forall|x: int, y: int| 0 <= x < len && 0 <= y < len && x != y implies mr[x]
            != mr[y] by {
            if 1 <= x <= m {
                lemma_ring_basics(old, hole, x - 1);
            }
            if 1 <= y <= m {
                lemma_ring_basics(old, hole, y - 1);
            }
            if x >= m + 3 || x == 0 {
                lemma_ring_basics(old, outer, if x == 0 { 0 } else { x - m - 2 });
            }
            if y >= m + 3 || y == 0 {
                lemma_ring_basics(old, outer, if y == 0 { 0 } else { y - m - 2 });
            }
        }
    }
}

/// The ring that bridging `outer[0]` to `hole[0]` makes, with the copies
/// `a2` (of `outer[0]`) and `a2 + 1` (of `hole[0]`).
pub open spec fn merged_ring(outer: Seq<usize>, hole: Seq<usize>, a2: usize) -> Seq<usize> {
    seq![outer[0]] + hole + seq![(a2 + 1) as usize, a2] + outer.subrange(1, outer.len() as int)
}


/// `n` is in no z-order list.
pub open spec fn z_none(n: Node) -> bool {
    n.prev_z is None && n.next_z is None
}

/// `zl` lists, in order, the distinct nodes of a doubly linked z-order list.
pub open spec fn z_ok(nodes: Seq<Node>, zl: Seq<usize>) -> bool {
    &&& zl.no_duplicates()
    &&& forall|k: int| 0 <= k < zl.len() ==> (#[trigger] zl[k]) < nodes.len()
    &&& forall|k: int|
        0 <= k < zl.len() ==> (#[trigger] nodes[zl[k] as int]).prev_z == (if k == 0 {
            None
        } else {
            Some(zl[k - 1])
        })
    &&& forall|k: int|
        0 <= k < zl.len() ==> (#[trigger] nodes[zl[k] as int]).next_z == (if k + 1 == zl.len() {
            None
        } else {
            Some(zl[k + 1])
        })
}

/// Each node of ring `r` is in the z-order list `zl` or in no z-order list.
pub open spec fn z_covers(nodes: Seq<Node>, zl: Seq<usize>, r: Seq<usize>) -> bool {
    forall|k: int|
        0 <= k < r.len() ==> zl.contains(#[trigger] r[k]) || z_none(nodes[r[k] as int])
}

/// The z-order list without node `p`.
pub open spec fn zl_without(zl: Seq<usize>, p: usize) -> Seq<usize> {
    if zl.contains(p) {
        zl.remove(zl.index_of(p))
    } else {
        zl
    }
}

pub proof fn lemma_z_basics(nodes: Seq<Node>, zl: Seq<usize>, k: int)
    requires
        z_ok(nodes, zl),
        0 <= k < zl.len(),
    ensures
        zl[k] < nodes.len(),
        nodes[zl[k] as int].prev_z == (if k == 0 {
            None
        } else {
            Some(zl[k - 1])
        }),
        nodes[zl[k] as int].next_z == (if k + 1 == zl.len() {
            None
        } else {
            Some(zl[k + 1])
        }),
{
    assert(zl[k] < nodes.len());
    assert(nodes[zl[k] as int].prev_z == (if k == 0 {
        None
    } else {
        Some(zl[k - 1])
    }));
}

/// The list `zl` without position `k`, read through the positions of `zl`.
proof fn lemma_remove_index(zl: Seq<usize>, k: int)
    requires
        0 <= k < zl.len(),
    ensures
        zl.remove(k).len() == zl.len() - 1,
        forall|j: int|
            0 <= j < zl.len() - 1 ==> #[trigger] zl.remove(k)[j] == zl[if j < k {
                j
            } else {
                j + 1
            }],
{
}

/// Unlinking node `p = zl[k]` keeps the z-order list well formed, without `p`.
#[verifier::spinoff_prover]
proof fn lemma_z_remove_at(old: Seq<Node>, new: Seq<Node>, zl: Seq<usize>, pl: LinkInfo, k: int)
    requires
        z_ok(old, zl),
        0 <= k < zl.len(),
        pl.prev_z == old[zl[k] as int].prev_z,
        pl.next_z == old[zl[k] as int].next_z,
        remove_effect(old, new, pl),
    ensures
        z_ok(new, zl.remove(k)),
{
    let n = zl.len() as int;
    let p = zl[k];
    lemma_z_basics(old, zl, k);
    let z2 = zl.remove(k);
    lemma_remove_index(zl, k);
    assert forall|j: int| 0 <= j < n - 1 implies (#[trigger] z2[j]) < new.len() && new[z2[j] as int].prev_z
        == (if j == 0 {
        None
    } else {
        Some(z2[j - 1])
    }) && new[z2[j] as int].next_z == (if j + 1 == n - 1 {
        None
    } else {
        Some(z2[j + 1])
    }) by {
        let i = if j < k {
            j
        } else {
            j + 1
        };
        assert(z2[j] == zl[i]);
        lemma_z_basics(old, zl, i);
        assert(zl[i] != p);
        if j >= 1 {
            assert(z2[j - 1] == zl[if j - 1 < k { j - 1 } else { j }]);
        }
        if j + 1 < n - 1 {
            assert(z2[j + 1] == zl[if j + 1 < k { j + 1 } else { j + 2 }]);
        }
        if k >= 1 {
            assert(zl[k - 1] != zl[i] || i == k - 1);
        }
        if k + 1 < n {
            assert(zl[k + 1] != zl[i] || i == k + 1);
        }
    }
    assert(z2.no_duplicates()) by {
        assert forall|x: int, y: int| 0 <= x < n - 1 && 0 <= y < n - 1 && x != y implies z2[x]
            != z2[y] by {
            assert(z2[x] == zl[if x < k { x } else { x + 1 }]);
            assert(z2[y] == zl[if y < k { y } else { y + 1 }]);
        }
    }
}

/// Unlinking node `p` keeps the z-order list well formed, without `p`.
#[verifier::spinoff_prover]
pub proof fn lemma_z_remove(old: Seq<Node>, new: Seq<Node>, zl: Seq<usize>, pl: LinkInfo, p: usize)
    requires
        z_ok(old, zl),
        p < old.len(),
        pl.prev_z == old[p as int].prev_z,
        pl.next_z == old[p as int].next_z,
        zl.contains(p) || z_none(old[p as int]),
        remove_effect(old, new, pl),
    ensures
        z_ok(new, zl_without(zl, p)),
        !zl_without(zl, p).contains(p),
        forall|x: usize| zl_without(zl, p).contains(x) <==> (zl.contains(x) && x != p),
        forall|i: int|
            0 <= i < old.len() && !zl.contains(i as usize) ==> #[trigger] new[i].prev_z
                == old[i].prev_z && new[i].next_z == old[i].next_z,
{
    let n = zl.len() as int;
    if zl.contains(p) {
        let k = zl.index_of(p);
        assert(0 <= k < n && zl[k] == p);
        lemma_z_basics(old, zl, k);
        let z2 = zl.remove(k);
        assert(zl_without(zl, p) == z2);
        lemma_z_remove_at(old, new, zl, pl, k);
        lemma_remove_index(zl, k);
        assert forall|x: usize| z2.contains(x) <==> (zl.contains(x) && x != p) by {
            if z2.contains(x) {
                let j = choose|j: int| 0 <= j < n - 1 && z2[j] == x;
                assert(z2[j] == zl[if j < k { j } else { j + 1 }]);
            }
            if zl.contains(x) && x != p {
                let i = choose|i: int| 0 <= i < n && zl[i] == x;
                let j = if i < k {
                    i
                } else {
                    i - 1
                };
                assert(z2[j] == zl[i]);
            }
        }
        assert forall|i: int| 0 <= i < old.len() && !zl.contains(i as usize) implies #[trigger] new[i].prev_z
            == old[i].prev_z && new[i].next_z == old[i].next_z by {
            if k >= 1 {
                assert(zl[k - 1] != i);
            }
            if k + 1 < n {
                assert(zl[k + 1] != i);
            }
        }
    } else {
        assert forall|j: int| 0 <= j < n implies (#[trigger] zl[j]) < new.len() && new[zl[j] as int].prev_z
            == (if j == 0 {
            None
        } else {
            Some(zl[j - 1])
        }) && new[zl[j] as int].next_z == (if j + 1 == n {
            None
        } else {
            Some(zl[j + 1])
        }) by {
            lemma_z_basics(old, zl, j);
        }
    }
}

/// After unlinking `p`, a ring without `p` is still covered by the list without `p`.
#[verifier::spinoff_prover]
pub proof fn lemma_z_covers_remove(
    old: Seq<Node>,
    new: Seq<Node>,
    zl: Seq<usize>,
    pl: LinkInfo,
    p: usize,
    q: Seq<usize>,
)
    requires
        z_ok(old, zl),
        p < old.len(),
        pl.prev_z == old[p as int].prev_z,
        pl.next_z == old[p as int].next_z,
        zl.contains(p) || z_none(old[p as int]),
        remove_effect(old, new, pl),
        z_covers(old, zl, q),
        !q.contains(p),
        forall|k: int| 0 <= k < q.len() ==> q[k] < old.len(),
    ensures
        z_covers(new, zl_without(zl, p), q),
{
    lemma_z_remove(old, new, zl, pl, p);
    assert forall|k: int| 0 <= k < q.len() implies zl_without(zl, p).contains(#[trigger] q[k])
        || z_none(new[q[k] as int]) by {
        assert(q[k] != p);
        if !zl.contains(q[k]) {
            assert(new[q[k] as int].prev_z == old[q[k] as int].prev_z);
        }
    }
}


/// Stepping one node further along a rotation.
pub proof fn lemma_rotate_step(r: Seq<usize>, c: int)
    requires
        0 <= c,
        c + 1 < r.len(),
    ensures
        rotate(rotate(r, c), 1) == rotate(r, c + 1),
{
    let n = r.len() as int;
    let s = rotate(rotate(r, c), 1);
    let t = rotate(r, c + 1);
    assert(rotate(r, c).len() == n);
    assert forall|j: int| 0 <= j < n implies s[j] == t[j] by {
        if j + 1 < n {
            assert(s[j] == rotate(r, c)[j + 1]);
        } else {
            assert(s[j] == rotate(r, c)[0]);
        }
    }
    assert(s =~= t);
}

pub proof fn lemma_rotate_zero(r: Seq<usize>)
    ensures
        rotate(r, 0) == r,
{
    assert(rotate(r, 0) =~= r);
}

} // verus!
